use fastwarc_grpc::config::Limits;
use fastwarc_grpc::grpc_frame::{encode_message, MessageSplitter};
use fastwarc_grpc::message::{ParseWarcConfig, ParseWarcRequest, RequestKind};
use fastwarc_grpc::raw_service::{
    BodyFrame, Polled, PumpAction, RawWarcService, RequestPump, ResponseBody, Route,
};
use fastwarc_grpc::status::{Code, Status};
use fastwarc_grpc::warc_service::{
    forward_chunks, validate_local_requests, ForwardAction, ParserInput, RequestEvent, RootLookup,
    WarcParser,
};
use prost::bytes::Bytes;

const LIMITS: Limits = Limits {
    max_header_len: 1000,
    max_payload_chunk_size: 2000,
    max_input_buffer_size: 3000,
    default_input_buffer_size: 500,
};

fn chunk() -> ParseWarcRequest {
    ParseWarcRequest { kind: Some(RequestKind::Chunk(Bytes::from_static(b"WARC/1.1\r\n"))) }
}

fn config(archive_path: &str) -> ParseWarcRequest {
    ParseWarcRequest {
        kind: Some(RequestKind::Config(ParseWarcConfig {
            archive_path: archive_path.to_owned(),
            ..Default::default()
        })),
    }
}

fn failure(action: PumpAction) -> Status {
    match action {
        PumpAction::Fail(status) => status,
        _ => panic!("expected a failure"),
    }
}

#[test]
fn raw_route_rejects_chunk_first() {
    let mut pump = RequestPump::new();
    let status = failure(pump.decide(Ok(chunk()), &WarcParser::new(), &LIMITS));
    assert_eq!(status.code, Code::InvalidArgument);
    assert_eq!(status.message, "first ParseWarc request message must set `config`");
}

#[test]
fn raw_route_rejects_double_config() {
    let mut pump = RequestPump::new();
    let started = pump.decide(Ok(config("")), &WarcParser::new(), &LIMITS);
    assert!(matches!(started, PumpAction::Start(_)));
    let status = failure(pump.decide(Ok(config("")), &WarcParser::new(), &LIMITS));
    assert_eq!(status.code, Code::InvalidArgument);
    assert_eq!(status.message, "`config` may only be set on the first request message");
}

#[test]
fn raw_route_gates_archive_path() {
    let mut pump = RequestPump::new();
    let status = failure(pump.decide(Ok(config("/etc/hostname")), &WarcParser::new(), &LIMITS));
    assert_eq!(status.code, Code::PermissionDenied);
}

#[test]
fn raw_route_validates_the_configuration() {
    let mut pump = RequestPump::new();
    let request = ParseWarcRequest {
        kind: Some(RequestKind::Config(ParseWarcConfig {
            input_buffer_size: 3001,
            ..Default::default()
        })),
    };
    assert_eq!(
        failure(pump.decide(Ok(request), &WarcParser::new(), &LIMITS)),
        Status::new(Code::InvalidArgument, "input_buffer_size must not exceed 3000 bytes")
    );
}

#[test]
fn raw_route_forwards_chunks_of_an_upload() {
    let mut pump = RequestPump::new();
    let PumpAction::Start(plan) = pump.decide(Ok(config("")), &WarcParser::new(), &LIMITS) else {
        panic!("expected a start");
    };
    assert!(matches!(plan.input, ParserInput::Chunks));
    let PumpAction::Forward(data) = pump.decide(Ok(chunk()), &WarcParser::new(), &LIMITS) else {
        panic!("expected a chunk");
    };
    assert_eq!(&data[..], b"WARC/1.1\r\n");
    assert_eq!(pump.end(), None);
}

#[test]
fn raw_route_ignores_chunks_for_a_local_file() {
    let lookup =
        RootLookup::Found { path: "/srv".to_owned(), is_dir: true, opened: Ok(()) };
    let parser = WarcParser::with_local_files(lookup).ok().unwrap();
    let mut pump = RequestPump::new();
    let PumpAction::Start(plan) = pump.decide(Ok(config("/srv/a.warc")), &parser, &LIMITS) else {
        panic!("expected a start");
    };
    assert!(matches!(plan.input, ParserInput::LocalFile(path) if path == "a.warc"));
    assert!(matches!(pump.decide(Ok(chunk()), &parser, &LIMITS), PumpAction::Ignore));
    assert_eq!(pump.end(), None);
}

#[test]
fn raw_route_rejects_messages_without_content() {
    let mut pump = RequestPump::new();
    let empty = ParseWarcRequest { kind: None };
    assert_eq!(
        failure(pump.decide(Ok(empty), &WarcParser::new(), &LIMITS)),
        Status::new(
            Code::InvalidArgument,
            "ParseWarc request message must set `config` or `chunk`"
        )
    );
    assert_eq!(
        failure(pump.decide(Err("bad varint".to_owned()), &WarcParser::new(), &LIMITS)),
        Status::new(Code::InvalidArgument, "malformed ParseWarcRequest: bad varint")
    );
}

#[test]
fn raw_route_rejects_an_empty_stream() {
    assert_eq!(
        RequestPump::new().end(),
        Some(Status::new(
            Code::InvalidArgument,
            "empty ParseWarc request stream; first message must set `config`"
        ))
    );
}

#[test]
fn raw_route_splits_the_body() {
    let mut pump = RequestPump::new();
    let mut stream = encode_message(b"one").to_vec();
    stream.extend_from_slice(&encode_message(b"two"));
    let mut bodies = Vec::new();
    for piece in stream.chunks(6) {
        let data = Bytes::copy_from_slice(piece);
        assert!(pump.has_room(&data));
        pump.push(data);
        while let Some(message) = pump.next_message(16).unwrap() {
            bodies.push(message);
        }
    }
    assert_eq!(bodies, [&b"one"[..], &b"two"[..]]);
    pump.push(Bytes::from_static(&[2, 0, 0, 0, 0]));
    assert_eq!(pump.next_message(16).unwrap_err().code, Code::InvalidArgument);
}

#[test]
fn other_methods_go_to_the_generated_server() {
    let service = RawWarcService::new(WarcParser::new());
    assert_eq!(service.route("/fastwarc.v1.WarcService/ParseWarc"), Route::Raw);
    assert_eq!(service.route("/fastwarc.v1.WarcService/ParseArchive"), Route::Generated);
    assert_eq!(service.route("/fastwarc.v1.WarcService/ParseWarc/"), Route::Generated);
    assert!(service.parser().plan(ParseWarcConfig::default(), &LIMITS).is_ok());
}

#[test]
fn a_body_ends_with_one_status() {
    let mut body = ResponseBody::new();
    assert!(matches!(body.poll_frame(Polled::Pending), BodyFrame::Pending));
    let mut splitter = MessageSplitter::new();
    for message in [&b"first"[..], &b""[..], &b"third"[..]] {
        let BodyFrame::Data(data) = body.poll_frame(Polled::Message(message)) else {
            panic!("expected data");
        };
        splitter.push(data);
        assert_eq!(splitter.next_message(16), Ok(Some(Bytes::copy_from_slice(message))));
    }
    assert!(!body.is_done());
    assert!(matches!(body.poll_frame(Polled::Closed), BodyFrame::Trailers(None)));
    assert!(body.is_done());
    assert!(matches!(body.poll_frame(Polled::Message(b"late")), BodyFrame::End));
    assert!(matches!(body.poll_frame(Polled::Closed), BodyFrame::End));
}

#[test]
fn a_body_ends_with_the_failure() {
    let mut body = ResponseBody::new();
    let status = Status::new(Code::Internal, "WARC parser task panicked");
    let BodyFrame::Trailers(Some(sent)) = body.poll_frame(Polled::Failed(status.clone())) else {
        panic!("expected trailers");
    };
    assert_eq!(sent, status);
    assert!(body.is_done());
}

/// The path to parse, the chunks that were forwarded, and the code of a failure.
#[derive(Debug, Default, PartialEq)]
struct Session {
    start: Option<Option<String>>,
    chunks: Vec<Bytes>,
    failure: Option<Code>,
}

fn local_path(input: ParserInput) -> Option<String> {
    match input {
        ParserInput::Chunks => None,
        ParserInput::LocalFile(path) => Some(path),
    }
}

fn raw_session(parser: &WarcParser, messages: Vec<ParseWarcRequest>) -> Session {
    let mut session = Session::default();
    let mut pump = RequestPump::new();
    for message in messages {
        match pump.decide(Ok(message), parser, &LIMITS) {
            PumpAction::Start(plan) => session.start = Some(local_path(plan.input)),
            PumpAction::Forward(chunk) => session.chunks.push(chunk),
            PumpAction::Ignore => {}
            PumpAction::Fail(status) => {
                session.failure = Some(status.code);
                return session;
            }
        }
    }
    session.failure = pump.end().map(|status| status.code);
    session
}

fn codec_session(parser: &WarcParser, messages: Vec<ParseWarcRequest>) -> Session {
    let mut session = Session::default();
    let mut messages = messages.into_iter();
    match parser.parse_warc(Ok(messages.next()), &LIMITS) {
        Ok(plan) => session.start = Some(local_path(plan.input)),
        Err(status) => {
            session.failure = Some(status.code);
            return session;
        }
    }
    let local = matches!(session.start, Some(Some(_)));
    for message in messages {
        let event = RequestEvent::Message(message);
        let action = if local { validate_local_requests(event) } else { forward_chunks(event) };
        match action {
            ForwardAction::Forward(chunk) => session.chunks.push(chunk),
            ForwardAction::Ignore => {}
            ForwardAction::Fail(status) => {
                session.failure = Some(status.code);
                return session;
            }
            ForwardAction::Stop => return session,
        }
    }
    session
}

#[test]
fn both_routes_make_the_same_of_a_stream() {
    let empty = || ParseWarcRequest { kind: None };
    let streams: [fn() -> Vec<ParseWarcRequest>; 8] = [
        Vec::new,
        || vec![chunk()],
        || vec![config(""), chunk(), chunk()],
        || vec![config(""), chunk(), config(""), chunk()],
        || vec![config("a.warc"), chunk()],
        || vec![config("/srv/a.warc"), chunk(), config("")],
        || vec![config("../a.warc"), chunk()],
        || vec![config("/etc/hostname")],
    ];
    let lookup = RootLookup::Found { path: "/srv".to_owned(), is_dir: true, opened: Ok(()) };
    for parser in [WarcParser::new(), WarcParser::with_local_files(lookup).ok().unwrap()] {
        for stream in streams {
            let mut messages = stream();
            messages.push(empty());
            assert_eq!(raw_session(&parser, messages), {
                let mut messages = stream();
                messages.push(empty());
                codec_session(&parser, messages)
            });
            assert_eq!(raw_session(&parser, stream()), codec_session(&parser, stream()));
        }
    }
}

#[test]
fn an_upload_is_forwarded_in_order() {
    let parser = WarcParser::new();
    let chunks = [Bytes::from_static(b"WARC"), Bytes::new(), Bytes::from_static(b"/1.0")];
    let mut messages = vec![config("")];
    for chunk in &chunks {
        messages.push(ParseWarcRequest { kind: Some(RequestKind::Chunk(chunk.clone())) });
    }
    let session = codec_session(&parser, messages);
    assert_eq!(
        session,
        Session { start: Some(None), chunks: chunks.to_vec(), failure: None }
    );
}

/// Reads a body that is cut into frames of `size` bytes. A message `c` stands for
/// the configuration, `!` for one that cannot be decoded, any other for a chunk.
fn read_body(body: &[u8], size: usize) -> (bool, Vec<u8>, Option<Code>) {
    let mut pump = RequestPump::new();
    let (mut started, mut chunks) = (false, Vec::new());
    for frame in body.chunks(size) {
        let frame = Bytes::copy_from_slice(frame);
        assert!(pump.has_room(&frame));
        pump.push(frame);
        loop {
            let message = match pump.next_message(100) {
                Ok(Some(message)) => message,
                Ok(None) => break,
                Err(status) => return (started, chunks, Some(status.code)),
            };
            let decoded = match &message[..] {
                b"c" => Ok(config("")),
                b"!" => Err("bad".to_owned()),
                _ => Ok(ParseWarcRequest { kind: Some(RequestKind::Chunk(message)) }),
            };
            match pump.decide(decoded, &WarcParser::new(), &LIMITS) {
                PumpAction::Start(_) => started = true,
                PumpAction::Forward(chunk) => chunks.extend_from_slice(&chunk),
                PumpAction::Ignore => {}
                PumpAction::Fail(status) => return (started, chunks, Some(status.code)),
            }
        }
    }
    (started, chunks, pump.end().map(|status| status.code))
}

#[test]
fn the_cut_of_a_body_does_not_matter() {
    let body = |messages: &[&[u8]]| -> Vec<u8> {
        messages.iter().flat_map(|message| encode_message(message).to_vec()).collect()
    };
    let upload = body(&[b"c", b"WARC", b"", b"/1.0\r\n"]);
    let second = body(&[b"c", b"a", b"c", b"b"]);
    let malformed = body(&[b"c", b"a", b"!", b"b"]);
    let too_long = [body(&[b"c", b"a"]), body(&[&[7; 101]])].concat();
    let compressed = [body(&[b"c", b"a"]), vec![1, 0, 0, 0, 0]].concat();
    for size in 1..=upload.len() {
        assert_eq!(read_body(&upload, size), (true, b"WARC/1.0\r\n".to_vec(), None));
        let invalid = (true, b"a".to_vec(), Some(Code::InvalidArgument));
        assert_eq!(read_body(&second, size), invalid);
        assert_eq!(read_body(&malformed, size), invalid);
        assert_eq!(read_body(&compressed, size), invalid);
        assert_eq!(read_body(&too_long, size), (true, b"a".to_vec(), Some(Code::OutOfRange)));
    }
    assert_eq!(read_body(b"", 1), (false, Vec::new(), Some(Code::InvalidArgument)));
}
