use fastwarc_grpc::channel_reader::{join, seek_in_place, ChannelReader, Position, Unsupported};
use prost::bytes::Bytes;
use tokio::sync::mpsc;

#[test]
fn empty_read_does_not_wait_for_input() {
    let (_tx, rx) = mpsc::channel(1);
    let mut reader = ChannelReader::new(rx);
    assert_eq!(reader.read(&mut []), 0);
}

#[test]
fn fragmented_stream_head_is_coalesced_for_detection() {
    let (tx, rx) = mpsc::channel(3);
    tx.try_send(Bytes::from_static(b"\x1f")).unwrap();
    tx.try_send(Bytes::from_static(b"\x8b\x08")).unwrap();
    tx.try_send(Bytes::from_static(b"\x00payload")).unwrap();
    drop(tx);

    let mut reader = ChannelReader::new(rx);
    assert_eq!(reader.fill_buf(), b"\x1f\x8b\x08\x00payload");
}

#[test]
fn short_stream_returns_available_prefix_at_eof() {
    let (tx, rx) = mpsc::channel(1);
    tx.try_send(Bytes::from_static(b"WA")).unwrap();
    drop(tx);

    let mut reader = ChannelReader::new(rx);
    assert_eq!(reader.fill_buf(), b"WA");
}

#[test]
fn seek_accepts_current_position_only() {
    let (tx, rx) = mpsc::channel(1);
    tx.try_send(Bytes::from_static(b"WARC")).unwrap();
    drop(tx);

    let mut reader = ChannelReader::new(rx);
    assert_eq!(reader.seek(Position::Current(0)).unwrap(), 0);
    assert_eq!(reader.seek(Position::Start(0)).unwrap(), 0);

    let mut prefix = [0; 2];
    assert_eq!(reader.read(&mut prefix), 2);
    assert_eq!(&prefix, b"WA");
    assert_eq!(reader.seek(Position::Current(0)).unwrap(), 2);
    assert_eq!(reader.seek(Position::Start(2)).unwrap(), 2);
    assert_eq!(reader.seek(Position::Start(0)).unwrap_err(), Unsupported);
    assert_eq!(reader.seek(Position::Current(1)).unwrap_err(), Unsupported);
    assert_eq!(reader.seek(Position::End(0)).unwrap_err(), Unsupported);
}

#[test]
fn reader_yields_the_chunks_end_to_end() {
    let (tx, rx) = mpsc::channel(8);
    for chunk in ["WARC", "", "/1.0", "\r\n"] {
        tx.try_send(Bytes::from_static(chunk.as_bytes())).unwrap();
    }
    drop(tx);
    let mut reader = ChannelReader::new(rx);
    let mut all = Vec::new();
    loop {
        let mut buf = [0; 3];
        let count = reader.read(&mut buf);
        if count == 0 {
            break;
        }
        all.extend_from_slice(&buf[..count]);
    }
    assert_eq!(all, b"WARC/1.0\r\n");
    assert_eq!(reader.seek(Position::Current(0)), Ok(10));
    assert_eq!(reader.fill_buf(), b"");
}

#[test]
fn consuming_is_limited_to_the_window() {
    let (tx, rx) = mpsc::channel(1);
    tx.try_send(Bytes::from_static(b"WARC/")).unwrap();
    drop(tx);
    let mut reader = ChannelReader::new(rx);
    assert_eq!(reader.fill_buf(), b"WARC/");
    reader.consume(4);
    assert_eq!(reader.fill_buf(), b"/");
    reader.consume(9);
    assert_eq!(reader.seek(Position::Start(5)), Ok(5));
}

#[test]
fn chunks_join_behind_the_window() {
    let joined = join(Bytes::from_static(b"ab"), Bytes::from_static(b"cd"));
    assert_eq!(joined, "abcd");
    assert_eq!(join(Bytes::new(), Bytes::from_static(b"cd")), "cd");
    assert_eq!(join(Bytes::from_static(b"ab"), Bytes::new()), "ab");
}

#[test]
fn filling_twice_gives_the_same_window() {
    let (tx, rx) = mpsc::channel(4);
    for chunk in ["", "W", "", "ARC/1.0"] {
        tx.try_send(Bytes::from_static(chunk.as_bytes())).unwrap();
    }
    let mut reader = ChannelReader::new(rx);
    assert!(reader.wants_input());
    assert_eq!(reader.fill_buf(), b"WARC/1.0");
    assert!(!reader.wants_input());
    assert_eq!(reader.fill_buf(), b"WARC/1.0");
    reader.consume(8);
    drop(tx);
    assert_eq!(reader.fill_buf(), b"");
    assert_eq!(reader.fill_buf(), b"");
    assert_eq!(reader.seek(Position::Current(0)), Ok(8));
}

#[test]
fn reads_of_every_size_give_the_stream() {
    for size in 1..12 {
        let (tx, rx) = mpsc::channel(8);
        for chunk in ["W", "", "AR", "C/1.", "0\r\n"] {
            tx.try_send(Bytes::from_static(chunk.as_bytes())).unwrap();
        }
        drop(tx);
        let mut reader = ChannelReader::new(rx);
        let mut all = Vec::new();
        loop {
            let mut buf = vec![0; size];
            let count = reader.read(&mut buf);
            if count == 0 {
                break;
            }
            assert!(count <= size);
            all.extend_from_slice(&buf[..count]);
            assert_eq!(reader.seek(Position::Current(0)), Ok(all.len() as u64));
        }
        assert_eq!(all, b"WARC/1.0\r\n");
    }
}

#[test]
fn a_stream_stays_where_it_is() {
    assert_eq!(seek_in_place(7, Position::Start(7)), Ok(7));
    assert_eq!(seek_in_place(7, Position::Current(0)), Ok(7));
    assert_eq!(seek_in_place(0, Position::End(0)), Err(Unsupported));
    assert_eq!(seek_in_place(7, Position::Current(-7)), Err(Unsupported));
}
