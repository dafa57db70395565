use fastwarc::warc::iter::ArchiveIterator;
use fastwarc_grpc::grpc_frame::chunk_prefix;
use fastwarc_grpc::ladder::{
    chunk_frame_overhead, count_end, parse_config, upload_wire_bytes, Replies, Step, Tally, CHUNK,
};
use fastwarc_grpc::message::{
    ParseWarcConfig, ParseWarcResponse, RecordBatch, RecordEnd, RecordError, RecordMetadata,
    ResponseKind,
};
use fastwarc_grpc::output::{
    encode_grpc_frame, OutputAction, OutputEvent, OutputRun, ProtoSink,
};
use prost::bytes::BytesMut;

fn response(kind: ResponseKind) -> ParseWarcResponse {
    ParseWarcResponse { kind: Some(kind) }
}

fn end(payload_length: u64) -> ParseWarcResponse {
    response(ResponseKind::RecordEnd(RecordEnd { payload_length }))
}

fn error(recoverable: bool, message: &str) -> ParseWarcResponse {
    response(ResponseKind::RecordError(RecordError {
        record_index: 0,
        recoverable,
        message: message.to_owned(),
        encoded_len: 0,
    }))
}

fn batch(items: Vec<ParseWarcResponse>) -> ParseWarcResponse {
    response(ResponseKind::Batch(RecordBatch { items }))
}

/// Counts the records of an archive, without parsing HTTP headers.
fn count_records(archive: &[u8]) -> (u64, usize) {
    let mut records = ArchiveIterator::new(std::io::Cursor::new(archive.to_vec()))
        .with_parse_http(false)
        .with_inplace(true);
    let mut tally = Tally::new();
    loop {
        let step = match records.next() {
            Some(Ok(record)) => Step::Record(record.borrow().content_length()),
            Some(Err(_)) => Step::Unreadable,
            None => Step::End,
        };
        if !tally.count(step) {
            return (tally.payload(), tally.records());
        }
    }
}

#[test]
fn archive_records_are_counted() {
    let archive = b"WARC/1.0\r\nWARC-Type: resource\r\nContent-Length: 4\r\n\r\nbody\r\n\r\n\
WARC/1.0\r\nWARC-Type: resource\r\nContent-Length: 7\r\n\r\npayload\r\n\r\n";
    assert_eq!(count_records(archive), (11, 2));
    assert_eq!(count_records(b""), (0, 0));
}

#[test]
fn an_unparsable_http_block_is_still_counted() {
    let archive = b"WARC/1.0\r\nWARC-Type: response\r\n\
Content-Type: application/http; msgtype=response\r\nContent-Length: 4\r\n\r\nbody\r\n\r\n\
WARC/1.0\r\nWARC-Type: resource\r\nContent-Length: 7\r\n\r\npayload\r\n\r\n";
    assert_eq!(count_records(archive), (11, 2));
}

#[test]
fn unreadable_records_are_passed_over() {
    let mut tally = Tally::new();
    for step in [Step::Record(5), Step::Unreadable, Step::Record(6)] {
        assert!(tally.count(step));
    }
    assert!(!tally.count(Step::End));
    assert_eq!((tally.payload(), tally.records()), (11, 2));
    assert!(tally.count(Step::Record(u64::MAX)));
    assert_eq!((tally.payload(), tally.records()), (10, 3));
}

#[test]
fn measured_parses_are_configured() {
    let expected = |full, path: &str| ParseWarcConfig {
        parse_http: Some(false),
        include_payload: Some(full),
        include_headers: Some(full),
        payload_chunk_size: 1 << 20,
        input_buffer_size: 64 << 10,
        response_batch_size: 64,
        archive_path: path.to_owned(),
        ..Default::default()
    };
    assert_eq!(parse_config(false, None), expected(false, ""));
    assert_eq!(parse_config(true, Some("/data/a.warc")), expected(true, "/data/a.warc"));
}

#[test]
fn overhead_is_header_key_and_length() {
    assert_eq!(chunk_frame_overhead(0), 7);
    assert_eq!(chunk_frame_overhead(127), 7);
    assert_eq!(chunk_frame_overhead(128), 8);
    assert_eq!(chunk_frame_overhead(CHUNK), 9);
}

#[test]
fn upload_lengths_match_the_frames() {
    assert_eq!(upload_wire_bytes(0, 20), 25);
    assert_eq!(upload_wire_bytes(100, 20), 25 + 107);
    assert_eq!(upload_wire_bytes(2 * 65536 + 5, 20), 25 + 2 * 65545 + 12);
    for file_bytes in [1usize, 127, 65535, 65536, 65537, 300_000] {
        let file = vec![0u8; file_bytes];
        let framed: usize = file.chunks(CHUNK).map(|c| chunk_prefix(c.len()).len() + c.len()).sum();
        assert_eq!(upload_wire_bytes(file_bytes as u64, 0), 5 + framed as u64);
    }
}

#[test]
fn ends_are_counted_through_batches() {
    let (mut payload, mut records, mut fatal) = (1, 2, Vec::new());
    let reply = batch(vec![
        end(10),
        error(true, "skipped"),
        batch(vec![error(false, "broken"), end(20)]),
        ParseWarcResponse { kind: None },
    ]);
    count_end(&reply, &mut payload, &mut records, &mut fatal);
    assert_eq!((payload, records), (31, 4));
    assert_eq!(fatal, ["broken"]);
}

#[test]
fn replies_add_up() {
    let mut replies = Replies::new();
    replies.receive(&batch(vec![end(3), end(4)]), 10);
    replies.receive(&error(false, "late"), 6);
    assert_eq!((replies.payload, replies.records, replies.wire_out), (7, 2, 26));
    let mut others = Replies::new();
    others.receive(&end(1), 2);
    others.merge(replies);
    assert_eq!((others.payload, others.records, others.wire_out), (8, 3, 33));
    assert_eq!(others.fatal, ["late"]);
}

#[test]
fn replies_have_room() {
    let mut replies = Replies::new();
    replies.receive(&end(u64::MAX - 1), 10);
    assert!(replies.has_room(&batch(vec![end(1), end(0), error(false, "x")]), 6));
    assert!(!replies.has_room(&batch(vec![end(1), end(1)]), 6));
    assert!(replies.has_room(&end(0), usize::MAX - 20));
    assert!(!replies.has_room(&end(0), usize::MAX - 19));
    let mut others = Replies::new();
    others.receive(&end(1), 2);
    assert!(others.has_room_for(&replies));
    others.receive(&end(1), 2);
    assert!(!others.has_room_for(&replies));
}

#[test]
fn reading_is_turned_into_output() {
    let mut run = OutputRun::new();
    assert_eq!(run.step(OutputEvent::Unreadable), OutputAction::Skip);
    assert_eq!(run.step(OutputEvent::Record), OutputAction::Start(0));
    assert_eq!(run.step(OutputEvent::Window(5)), OutputAction::Payload(0));
    assert_eq!(run.step(OutputEvent::Window(7)), OutputAction::Payload(5));
    assert!(!run.has_room_for(OutputEvent::Window(usize::MAX)));
    assert!(run.has_room_for(OutputEvent::Window(0)));
    assert_eq!(run.step(OutputEvent::Window(0)), OutputAction::End(12));
    assert_eq!(run.step(OutputEvent::Record), OutputAction::Start(1));
    assert_eq!(run.step(OutputEvent::NoPayload), OutputAction::End(0));
    assert_eq!(run.step(OutputEvent::Unreadable), OutputAction::Skip);
    assert_eq!(run.totals(), (12, 2));
}

#[test]
fn payload_windows_are_placed() {
    let mut run = OutputRun::new();
    assert_eq!(run.begin(), 0);
    assert!(run.has_room(usize::MAX));
    assert_eq!(run.window(5), 0);
    assert!(!run.has_room(usize::MAX));
    assert_eq!(run.window(7), 5);
    assert_eq!(run.end(), 12);
    assert_eq!(run.begin(), 1);
    assert_eq!(run.end(), 0);
    assert_eq!(run.begin(), 2);
    assert_eq!(run.window(1), 0);
    assert_eq!(run.end(), 1);
    assert_eq!(run.totals(), (13, 3));
}

#[test]
fn frames_go_through_a_scratch_buffer() {
    let mut scratch = BytesMut::new();
    assert_eq!(&encode_grpc_frame(&mut scratch, b"xy")[..], &[0, 0, 0, 0, 2, b'x', b'y']);
    assert!(scratch.is_empty());
}

#[test]
fn a_sink_batches_by_number() {
    let mut sink = ProtoSink::new();
    for i in 0..63 {
        assert_eq!(sink.record_end(i), None);
    }
    let message = sink.record_end(63).unwrap();
    assert_eq!(message, batch((0..64).map(end).collect()));
    assert_eq!(sink.flush(), None);
    assert_eq!(sink.record_end(7), None);
    assert_eq!(sink.flush(), Some(batch(vec![end(7)])));
    let frame = sink.frame(&[1, 2, 3]);
    assert_eq!(&frame[..], &[0, 0, 0, 0, 3, 1, 2, 3]);
    assert_eq!(sink.produced(), 8);
    let _ = sink.frame(&[]);
    assert_eq!(sink.produced(), 13);
}

#[test]
fn a_sink_batches_by_size() {
    let mut sink = ProtoSink::new();
    let metadata = RecordMetadata { encoded: vec![1] };
    assert_eq!(sink.record_start(metadata), None);
    // The start counts as 512 bytes, a window as 64 more than it holds.
    assert_eq!(sink.payload_window(0, &vec![5; (2 << 20) - 512 - 65]), None);
    let message = sink.payload_window(9, &[]).unwrap();
    let Some(ResponseKind::Batch(sent)) = message.kind else {
        panic!("expected a batch");
    };
    assert_eq!(sent.items.len(), 3);
    let Some(ResponseKind::PayloadChunk(last)) = &sent.items[2].kind else {
        panic!("expected a chunk");
    };
    assert_eq!((last.offset, last.data.len()), (9, 0));
    let Some(ResponseKind::PayloadChunk(large)) = &sent.items[1].kind else {
        panic!("expected a chunk");
    };
    assert!(large.data.iter().all(|byte| *byte == 5));
}
