use fastwarc_grpc::batch::{Batch, BatchEmitter, MAX_BATCH_BYTES};
use fastwarc_grpc::channel::{after_try_send, send_waiting, Next, Outlet, TrySend};
use fastwarc_grpc::message::{ParseWarcResponse, RecordEnd, ResponseKind};
use fastwarc_grpc::grouping::Emission;
use fastwarc_grpc::parser_run::{failed_open, run_parser, ParserOutput, ResponseRun};
use fastwarc_grpc::status::{Code, Status};
use fastwarc_grpc::warc_service::open_failure;
use tokio::sync::mpsc;

fn end(payload_length: u64) -> ParseWarcResponse {
    ParseWarcResponse { kind: Some(ResponseKind::RecordEnd(RecordEnd { payload_length })) }
}

fn lengths(message: ParseWarcResponse) -> Vec<u64> {
    match message.kind {
        Some(ResponseKind::RecordEnd(end)) => vec![end.payload_length],
        Some(ResponseKind::Batch(batch)) => batch.items.into_iter().flat_map(lengths).collect(),
        other => panic!("unexpected message: {other:?}"),
    }
}

#[test]
fn response_cancellation_stops_an_unflushed_batch() {
    let (tx, rx) = mpsc::channel(1);
    let mut emitter = BatchEmitter::new(&tx, 64);
    assert!(emitter.emit(end(0), 2));
    drop(rx);
    assert!(!emitter.emit(end(0), 2), "batch kept accepting events after cancellation");
}

#[test]
fn batches_fill_by_number() {
    let (tx, mut rx) = mpsc::channel(4);
    let mut emitter = BatchEmitter::new(&tx, 2);
    for i in 1..=5 {
        assert!(emitter.emit(end(i), 4));
    }
    assert!(emitter.flush());
    assert_eq!(lengths(rx.try_recv().unwrap().unwrap()), [1, 2]);
    assert_eq!(lengths(rx.try_recv().unwrap().unwrap()), [3, 4]);
    let last = rx.try_recv().unwrap().unwrap();
    assert!(matches!(last.kind, Some(ResponseKind::RecordEnd(RecordEnd { payload_length: 5 }))));
    assert!(rx.try_recv().is_err());
    assert!(emitter.flush());
    assert!(rx.try_recv().is_err());
}

#[test]
fn a_batch_of_one_is_sent_as_it_is() {
    for size in [0, 1] {
        let (tx, mut rx) = mpsc::channel(2);
        let mut emitter = BatchEmitter::new(&tx, size);
        assert!(emitter.emit(end(7), 4));
        assert_eq!(rx.try_recv().unwrap().unwrap(), end(7));
    }
}

#[test]
fn a_large_event_goes_out_alone() {
    let (tx, mut rx) = mpsc::channel(4);
    let mut emitter = BatchEmitter::new(&tx, 64);
    assert!(emitter.emit(end(1), 4));
    assert!(emitter.emit(end(2), MAX_BATCH_BYTES));
    assert!(emitter.emit(end(3), 4));
    assert_eq!(rx.try_recv().unwrap().unwrap(), end(1));
    assert_eq!(rx.try_recv().unwrap().unwrap(), end(2));
    assert!(rx.try_recv().is_err());
    assert!(emitter.flush());
    assert_eq!(rx.try_recv().unwrap().unwrap(), end(3));
}

#[test]
fn a_batch_goes_out_ahead_of_an_event_that_does_not_fit() {
    let (tx, mut rx) = mpsc::channel(4);
    let mut emitter = BatchEmitter::new(&tx, 64);
    let half = MAX_BATCH_BYTES / 2;
    assert!(emitter.emit(end(1), half));
    assert!(rx.try_recv().is_err());
    assert!(emitter.emit(end(2), half));
    assert_eq!(lengths(rx.try_recv().unwrap().unwrap()), [1]);
    assert!(emitter.emit(end(3), 4));
    assert!(emitter.flush());
    assert_eq!(lengths(rx.try_recv().unwrap().unwrap()), [2, 3]);
}

#[test]
fn flushing_reports_a_closed_channel() {
    let (tx, rx) = mpsc::channel(1);
    let mut emitter = BatchEmitter::new(&tx, 64);
    assert!(emitter.is_idle());
    assert!(emitter.flush());
    assert!(emitter.emit(end(1), 4));
    assert!(!emitter.is_idle());
    assert!(emitter.flush());
    assert!(emitter.is_idle());
    drop(rx);
    assert!(!emitter.flush());
    assert!(emitter.into_outlet().is_closed());

    let (tx, rx) = mpsc::channel(1);
    let mut emitter = BatchEmitter::new(&tx, 64);
    drop(rx);
    assert!(!emitter.flush());
}

#[test]
fn flushing_a_pending_event_reports_a_closed_channel() {
    let (tx, rx) = mpsc::channel(1);
    let mut emitter = BatchEmitter::new(&tx, 64);
    assert!(emitter.emit(end(1), 4));
    drop(rx);
    assert!(!emitter.flush());
    assert!(emitter.is_idle());
}

#[test]
fn a_closed_channel_is_not_sent_to() {
    let (tx, mut rx) = mpsc::channel(4);
    let mut emitter = BatchEmitter::new(&tx, 1);
    assert!(!emitter.emit_unless(true, end(1), 4));
    assert!(rx.try_recv().is_err());
    assert!(emitter.emit_unless(false, end(2), 4));
    assert_eq!(rx.try_recv().unwrap().unwrap(), end(2));
}

#[test]
fn item_sizes_count_key_and_length() {
    assert_eq!(Batch::item_size(0), 2);
    assert_eq!(Batch::item_size(127), 129);
    assert_eq!(Batch::item_size(128), 131);
    assert_eq!(Batch::item_size(usize::MAX), usize::MAX);
}

#[test]
fn only_a_full_channel_is_waited_for() {
    assert!(matches!(after_try_send::<u8>(TrySend::Sent), Next::Done(true)));
    assert!(matches!(after_try_send(TrySend::Full(3u8)), Next::Wait(3)));
    assert!(matches!(after_try_send(TrySend::Closed(3u8)), Next::Done(false)));
}

#[test]
fn sending_reports_delivery() {
    let (tx, mut rx) = mpsc::channel(1);
    let mut outlet = Outlet::new(&tx);
    assert!(!outlet.is_closed());
    assert!(send_waiting(&mut outlet, 1u8));
    assert_eq!(rx.try_recv().unwrap(), 1);
    drop(rx);
    assert!(outlet.is_closed());
    assert!(!send_waiting(&mut outlet, 2u8));
}

#[test]
fn sending_waits_for_room() {
    let (tx, mut rx) = mpsc::channel(1);
    tx.try_send(1u8).unwrap();
    let runtime = tokio::runtime::Runtime::new().unwrap();
    let sender = runtime.spawn_blocking(move || send_waiting(&mut Outlet::new(&tx), 2u8));
    assert_eq!(rx.blocking_recv(), Some(1));
    assert_eq!(rx.blocking_recv(), Some(2));
    assert!(runtime.block_on(sender).unwrap());
}

#[test]
fn a_run_flushes_its_last_batch() {
    let (tx, mut rx) = mpsc::channel(8);
    let emissions = (1..=5).map(|i| Emission { response: end(i), encoded_len: 4 }).collect();
    let run = run_parser(ParserOutput::Responses(emissions), &tx, 3);
    assert!(run.complete);
    assert_eq!(lengths(rx.try_recv().unwrap().unwrap()), [1, 2, 3]);
    assert_eq!(lengths(rx.try_recv().unwrap().unwrap()), [4, 5]);
    assert!(rx.try_recv().is_err());
}

#[test]
fn every_batch_size_sends_the_same_events() {
    for size in [0, 1, 2, 3, 5, 7, 64] {
        let (tx, mut rx) = mpsc::channel(16);
        let emissions = (1..=7).map(|i| Emission { response: end(i), encoded_len: 4 }).collect();
        assert!(run_parser(ParserOutput::Responses(emissions), &tx, size).complete);
        let mut sent = Vec::new();
        while let Ok(message) = rx.try_recv() {
            sent.extend(lengths(message.unwrap()));
        }
        assert_eq!(sent, [1, 2, 3, 4, 5, 6, 7]);
    }
}

#[test]
fn a_run_bounds_shared_messages_by_size() {
    let (tx, mut rx) = mpsc::channel(16);
    let lens = [4, MAX_BATCH_BYTES / 2, MAX_BATCH_BYTES / 2, MAX_BATCH_BYTES, 4, 4];
    let emissions = (1..)
        .zip(lens)
        .map(|(i, encoded_len)| Emission { response: end(i), encoded_len })
        .collect();
    assert!(run_parser(ParserOutput::Responses(emissions), &tx, 64).complete);
    let mut sent = Vec::new();
    while let Ok(message) = rx.try_recv() {
        sent.push(lengths(message.unwrap()));
    }
    assert_eq!(sent, [vec![1, 2], vec![3], vec![4], vec![5, 6]]);
}

#[test]
fn a_run_can_go_on_response_by_response() {
    let (tx, mut rx) = mpsc::channel(8);
    let mut run = ResponseRun::new(&tx, 2);
    for i in 1..=3 {
        assert!(run.emit(end(i), 4));
    }
    assert_eq!(lengths(rx.try_recv().unwrap().unwrap()), [1, 2]);
    assert!(rx.try_recv().is_err());
    assert!(run.finish().complete);
    assert_eq!(lengths(rx.try_recv().unwrap().unwrap()), [3]);

    let mut run = ResponseRun::new(&tx, 2);
    assert!(run.emit(end(1), 4));
    drop(rx);
    assert!(!run.emit(end(2), 4));
    assert!(!run.emit(end(3), 4));
    assert!(!run.finish().complete);
}

#[test]
fn a_run_without_responses_is_complete() {
    let (tx, mut rx) = mpsc::channel(1);
    let mut run = run_parser(ParserOutput::Responses(Vec::new()), &tx, 64);
    assert!(run.complete);
    assert!(rx.try_recv().is_err());
    assert!(!run.outlet.is_closed());
    drop(rx);
    assert!(run_parser(ParserOutput::Responses(Vec::new()), &tx, 64).complete);
}

#[test]
fn a_file_that_cannot_be_opened_is_one_item() {
    for size in [0, 1, 64] {
        let (tx, mut rx) = mpsc::channel(2);
        let failure = open_failure(false, "gone.warc", "not found");
        let run = run_parser(failed_open(failure, 50, 52), &tx, size);
        assert!(run.complete);
        let Some(ResponseKind::RecordError(error)) = rx.try_recv().unwrap().unwrap().kind else {
            panic!("expected an error");
        };
        assert!(!error.recoverable);
        assert_eq!((error.record_index, error.encoded_len), (0, 50));
        assert_eq!(error.message, "failed to open archive_path gone.warc: not found");
        assert!(rx.try_recv().is_err());

        let failure = open_failure(true, "link.warc", "denied");
        assert!(run_parser(failed_open(failure, 0, 0), &tx, size).complete);
        assert_eq!(rx.try_recv().unwrap().unwrap_err().code, Code::PermissionDenied);
        assert!(rx.try_recv().is_err());
    }
}

#[test]
fn a_run_stops_when_the_client_leaves() {
    let (tx, rx) = mpsc::channel(8);
    drop(rx);
    let emissions = vec![Emission { response: end(1), encoded_len: 4 }];
    assert!(!run_parser(ParserOutput::Responses(emissions), &tx, 3).complete);
}

#[test]
fn a_refused_run_sends_its_status() {
    let (tx, mut rx) = mpsc::channel(1);
    let status = Status::new(Code::PermissionDenied, "no");
    assert!(run_parser(ParserOutput::Refused(status.clone()), &tx, 3).complete);
    assert_eq!(rx.try_recv().unwrap(), Err(status));
}
