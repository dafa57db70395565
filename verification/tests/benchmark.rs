use fastwarc_grpc::benchmark::{
    buffer_size, check_buffer_size, count_records, has_room, jobs, upload_config, CountError,
    MAX_MESSAGE_SIZE,
};
use fastwarc_grpc::grpc_frame::{encode_chunk_message, MessageSplitter};
use fastwarc_grpc::message::{
    ParseWarcConfig, ParseWarcResponse, RecordBatch, RecordEnd, RecordError, RecordStart,
    ResponseKind,
};

fn error(recoverable: bool, message: &str) -> ParseWarcResponse {
    ParseWarcResponse {
        kind: Some(ResponseKind::RecordError(RecordError {
            record_index: 0,
            recoverable,
            message: message.to_owned(),
            encoded_len: message.len() + 2,
        })),
    }
}

fn end(payload_length: u64) -> ParseWarcResponse {
    ParseWarcResponse { kind: Some(ResponseKind::RecordEnd(RecordEnd { payload_length })) }
}

fn batch(items: Vec<ParseWarcResponse>) -> ParseWarcResponse {
    ParseWarcResponse { kind: Some(ResponseKind::Batch(RecordBatch { items })) }
}

#[test]
fn recoverable_error_does_not_stop_counting_batch() {
    let response = batch(vec![error(true, "invalid HTTP header"), end(42)]);
    let (mut count, mut bytes) = (0, 0);
    count_records(response, &mut count, &mut bytes).unwrap();
    assert_eq!((count, bytes), (1, 42));
}

#[test]
fn fatal_error_stops_counting() {
    let response = error(false, "invalid WARC header");
    let (mut count, mut bytes) = (0, 0);
    let error = count_records(response, &mut count, &mut bytes).unwrap_err();
    assert!(matches!(error, CountError::InvalidData(_)));
    assert_eq!((count, bytes), (0, 0));
}

#[test]
fn nothing_is_counted_behind_a_fatal_error() {
    let start = ParseWarcResponse {
        kind: Some(ResponseKind::RecordStart(RecordStart { metadata: None })),
    };
    let response = batch(vec![
        start,
        end(5),
        batch(vec![end(6), error(false, "broken"), end(7)]),
        end(8),
    ]);
    let (mut count, mut bytes) = (1, 100);
    assert_eq!(
        count_records(response, &mut count, &mut bytes),
        Err(CountError::InvalidData("broken".to_owned()))
    );
    assert_eq!((count, bytes), (3, 111));
}

#[test]
fn buffer_sizes_are_read() {
    assert_eq!(buffer_size(None), 1 << 20);
    assert_eq!(buffer_size(Some("65536")), 65536);
    assert_eq!(buffer_size(Some("+7")), 7);
    assert_eq!(buffer_size(Some("007")), 7);
    for value in ["", "0", "+", "-1", "64k", " 1", "99999999999999999999999"] {
        assert_eq!(buffer_size(Some(value)), 1 << 20, "value {value:?}");
    }
    assert_eq!(buffer_size(Some("18446744073709551615")), usize::MAX);
    assert_eq!(buffer_size(Some("18446744073709551616")), 1 << 20);
}

#[test]
fn buffers_leave_room_for_framing() {
    assert_eq!(check_buffer_size(8 << 20), Ok(()));
    assert_eq!(
        check_buffer_size((8 << 20) + 1),
        Err("BUFFER_SIZE must not exceed 8 MiB".to_owned())
    );
}

#[test]
fn job_numbers_are_read() {
    assert_eq!(jobs(None), 8);
    assert_eq!(jobs(Some("3")), 3);
    assert_eq!(jobs(Some("0")), 0);
    assert_eq!(jobs(Some("many")), 8);
}

#[test]
fn uploads_ask_for_nothing_back() {
    assert_eq!(
        upload_config(),
        ParseWarcConfig {
            parse_http: Some(false),
            include_payload: Some(false),
            include_headers: Some(false),
            response_batch_size: 64,
            ..Default::default()
        }
    );
}

#[test]
fn the_largest_chunk_is_accepted() {
    let size = 8 << 20;
    assert_eq!(check_buffer_size(size), Ok(()));
    let mut splitter = MessageSplitter::default();
    splitter.push(encode_chunk_message(&vec![1; size].into()));
    let message = splitter.next_message(MAX_MESSAGE_SIZE).unwrap().unwrap();
    assert!(message.len() > size);
}

#[test]
fn counts_have_room() {
    let response = batch(vec![end(1), end(2)]);
    assert!(has_room(&response, usize::MAX - 2, u64::MAX - 3));
    assert!(!has_room(&response, usize::MAX - 1, 0));
    assert!(!has_room(&response, 0, u64::MAX - 2));
    let stopped = batch(vec![end(1), error(false, "broken"), end(2)]);
    assert!(has_room(&stopped, usize::MAX - 1, u64::MAX - 1));
    assert!(!has_room(&stopped, usize::MAX, 0));
}
