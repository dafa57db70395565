use fastwarc_grpc::archive::{
    collect_archive, event_size, fold_response, sizes_fit, ArchiveCollector,
};
use fastwarc_grpc::message::{
    ParseWarcResponse, ParsedRecord, PayloadChunk, RecordBatch, RecordEnd, RecordError,
    RecordMetadata, RecordStart, ResponseKind,
};
use fastwarc_grpc::record_events::{payload_failure_message, RecordEvents};
use fastwarc_grpc::status::{Code, Status};
use prost::bytes::Bytes;

const BUDGET: usize = 64 << 20;

fn response(kind: ResponseKind) -> ParseWarcResponse {
    ParseWarcResponse { kind: Some(kind) }
}

fn start(metadata: Option<RecordMetadata>) -> ParseWarcResponse {
    response(ResponseKind::RecordStart(RecordStart { metadata }))
}

fn chunk(offset: u64, data: Vec<u8>) -> ParseWarcResponse {
    response(ResponseKind::PayloadChunk(PayloadChunk { offset, data: data.into() }))
}

fn end(payload_length: u64) -> ParseWarcResponse {
    response(ResponseKind::RecordEnd(RecordEnd { payload_length }))
}

fn error(message: &str) -> RecordError {
    let message = message.to_owned();
    let encoded_len = prost::encoding::string::encoded_len(3, &message);
    RecordError { record_index: 0, recoverable: false, message, encoded_len }
}

fn metadata(encoded: &[u8]) -> Option<RecordMetadata> {
    Some(RecordMetadata { encoded: encoded.to_vec() })
}

/// Length of a field with a one-byte key.
fn field(len: usize) -> usize {
    prost::encoding::key_len(1) + prost::length_delimiter_len(len) + len
}

#[test]
fn unary_budget_includes_protobuf_framing() {
    let start = start(metadata(&[]));
    for length in [0usize, 1, 127, 128, 16_383, 16_384] {
        let chunk = chunk(0, vec![0; length]);
        let payload = vec![0u8; length];
        let payload_len = if length == 0 {
            0
        } else {
            prost::encoding::bytes::encoded_len(2, &payload)
        };
        let record = prost::encoding::message::encoded_len(1, &()) + payload_len;
        assert!(event_size(&start, BUDGET) + event_size(&chunk, BUDGET) >= field(record));
    }
    let error = error("bad record");
    let encoded = field(error.encoded_len);
    let event = response(ResponseKind::RecordError(error));
    assert!(event_size(&event, BUDGET) >= encoded);
}

#[test]
fn event_sizes_are_exact() {
    // Two prefixes of one key byte and a four-byte length each.
    assert_eq!(event_size(&start(None), BUDGET), 10);
    assert_eq!(event_size(&start(metadata(&[1; 200])), BUDGET), 1 + 2 + 200 + 10);
    assert_eq!(event_size(&chunk(0, vec![0; 300]), BUDGET), 300);
    assert_eq!(event_size(&end(300), BUDGET), 0);
    assert_eq!(event_size(&ParseWarcResponse { kind: None }, BUDGET), 0);
    let items = vec![start(None), chunk(0, vec![0; 5]), end(5)];
    let batch = response(ResponseKind::Batch(RecordBatch { items }));
    assert_eq!(event_size(&batch, BUDGET), 15);
}

#[test]
fn batch_sizes_saturate() {
    let huge = || {
        response(ResponseKind::RecordError(RecordError {
            record_index: 0,
            recoverable: false,
            message: String::new(),
            encoded_len: usize::MAX - 11,
        }))
    };
    let batch = response(ResponseKind::Batch(RecordBatch { items: vec![huge(), huge()] }));
    assert_eq!(event_size(&batch, BUDGET), usize::MAX);
}

#[test]
fn payload_is_assembled_between_start_and_end() {
    let (mut open, mut records, mut errors) = (None, Vec::new(), Vec::new());
    let items = vec![
        start(metadata(b"m")),
        chunk(0, b"ab".to_vec()),
        response(ResponseKind::Batch(RecordBatch { items: vec![chunk(2, b"c".to_vec()), end(3)] })),
        chunk(0, b"stray".to_vec()),
        end(9),
    ];
    fold_response(
        response(ResponseKind::Batch(RecordBatch { items })),
        &mut open,
        &mut records,
        &mut errors,
    );
    assert_eq!(open, None);
    assert_eq!(records, [ParsedRecord { metadata: metadata(b"m"), payload: b"abc".to_vec() }]);
    assert!(errors.is_empty());
}

#[test]
fn an_error_discards_the_open_record() {
    let (mut open, mut records, mut errors) = (None, Vec::new(), Vec::new());
    for event in [
        start(None),
        chunk(0, b"ab".to_vec()),
        response(ResponseKind::RecordError(error("broken"))),
        end(2),
    ] {
        fold_response(event, &mut open, &mut records, &mut errors);
    }
    assert_eq!(open, None);
    assert!(records.is_empty());
    assert_eq!(errors, [error("broken")]);
}

#[test]
fn a_second_start_replaces_the_open_record() {
    let (mut open, mut records, mut errors) = (None, Vec::new(), Vec::new());
    for event in [start(metadata(b"1")), chunk(0, b"ab".to_vec()), start(metadata(b"2")), end(0)] {
        fold_response(event, &mut open, &mut records, &mut errors);
    }
    assert_eq!(records, [ParsedRecord { metadata: metadata(b"2"), payload: Vec::new() }]);
}

#[test]
fn collection_stops_past_the_budget() {
    // Two prefixes of two bytes each, and two payload bytes.
    let parsed = || vec![start(None), chunk(0, b"ab".to_vec()), end(2)];
    let collected = collect_archive(parsed(), 6).unwrap();
    assert_eq!(collected.records, [ParsedRecord { metadata: None, payload: b"ab".to_vec() }]);
    assert_eq!(
        collect_archive(parsed(), 5),
        Err(Status::new(
            Code::ResourceExhausted,
            "archive decodes past the 5-byte ParseArchive response budget; \
             use the streaming ParseWarc RPC for large archives"
        ))
    );
}

#[test]
fn a_collector_takes_nothing_past_the_budget() {
    let mut collector = ArchiveCollector::new(6);
    assert!(collector.emit(start(None)));
    assert!(!collector.emit(chunk(0, b"abc".to_vec())));
    assert!(!collector.emit(end(0)));
    assert_eq!(collector.finish().unwrap_err().code, Code::ResourceExhausted);
}

#[test]
fn an_unfinished_record_is_left_out() {
    let collected = collect_archive(vec![start(None), chunk(0, b"ab".to_vec())], BUDGET).unwrap();
    assert!(collected.records.is_empty());
    assert!(collected.errors.is_empty());
}

#[test]
fn an_end_counts_the_streamed_payload() {
    let (mut record, first) = RecordEvents::begin(metadata(b"m"));
    assert_eq!(first, start(metadata(b"m")));
    assert!(record.has_room(3));
    let mut parsed = vec![first];
    parsed.push(record.chunk(Bytes::from_static(b"abc")));
    parsed.push(record.chunk(Bytes::from_static(b"de")));
    parsed.push(record.end());
    assert_eq!(parsed[1], chunk(0, b"abc".to_vec()));
    assert_eq!(parsed[2], chunk(3, b"de".to_vec()));
    assert_eq!(parsed[3], end(5));
    let collected = collect_archive(parsed, BUDGET).unwrap();
    assert_eq!(
        collected.records,
        [ParsedRecord { metadata: metadata(b"m"), payload: b"abcde".to_vec() }]
    );
}

#[test]
fn a_payload_failure_closes_the_record() {
    let (mut record, _) = RecordEvents::begin(None);
    record.chunk(Bytes::from_static(b"0123456789"));
    let message = payload_failure_message("connection reset");
    assert_eq!(message, "failed to read record payload: connection reset");
    let (failure, close) = record.fail(0, message.clone(), 40);
    assert_eq!(
        failure,
        response(ResponseKind::RecordError(RecordError {
            record_index: 0,
            recoverable: false,
            message,
            encoded_len: 40
        }))
    );
    assert_eq!(close, end(10));
}

#[test]
fn sizes_that_outgrow_their_type_are_found() {
    let oversized = |encoded_len| {
        response(ResponseKind::RecordError(RecordError { encoded_len, ..error("long") }))
    };
    let len = prost::length_delimiter_len(usize::MAX);
    assert!(sizes_fit(&oversized(usize::MAX - 1 - len), BUDGET));
    assert!(!sizes_fit(&oversized(usize::MAX - len), BUDGET));
    assert!(sizes_fit(&start(metadata(b"abc")), BUDGET));
    let items = vec![end(0), oversized(usize::MAX)];
    assert!(!sizes_fit(&response(ResponseKind::Batch(RecordBatch { items })), BUDGET));
    let items = vec![chunk(0, vec![1]), ParseWarcResponse { kind: None }];
    assert!(sizes_fit(&response(ResponseKind::Batch(RecordBatch { items })), BUDGET));
}
