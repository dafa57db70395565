use std::io::Write;

use fastwarc::stream_io::gzip::GzipWriter;
use fastwarc_grpc::splitcheck::{
    is_warc_gzip_member, is_warc_lead, scan_members, verdict, MemberScan, Verdict,
};

/// One gzip member, at least as long as the search skips.
fn member(start: &str, salt: u32) -> Vec<u8> {
    let mut content = start.as_bytes().to_vec();
    let mut state = salt;
    for _ in 0..300 {
        state = state.wrapping_mul(1664525).wrapping_add(1013904223);
        content.push((state >> 24) as u8);
    }
    let mut writer = GzipWriter::new(std::io::Cursor::new(Vec::new()));
    writer.write_all(&content).unwrap();
    let compressed = writer.into_inner().unwrap().into_inner();
    assert!(compressed.len() > 128);
    compressed
}

#[test]
fn members_start_like_warc() {
    assert!(is_warc_gzip_member(&member("WARC/1.0\r\n", 1)));
    assert!(!is_warc_gzip_member(&member("HTTP/1.1\r\n", 1)));
    assert!(!is_warc_gzip_member(b"WARC/1.0\r\n"));
    assert!(!is_warc_gzip_member(&[]));
    assert!(!is_warc_gzip_member(&member("WARC/1.0\r\n", 1)[..9]));
}

#[test]
fn leads_are_compared_byte_by_byte() {
    assert!(is_warc_lead(Some(*b"WARC/")));
    assert!(!is_warc_lead(Some(*b"WARC\\")));
    assert!(!is_warc_lead(Some(*b"warc/")));
    assert!(!is_warc_lead(None));
}

#[test]
fn several_members_can_be_split() {
    let mut file = Vec::new();
    for salt in 1..=3 {
        file.extend_from_slice(&member("WARC/1.0\r\n", salt));
    }
    let scan = scan_members(&file);
    let Verdict::Splittable { members, .. } = verdict(&scan) else {
        panic!("members were not found");
    };
    assert_eq!(members, 3);
}

#[test]
fn one_member_is_parsed_in_sequence() {
    let scan = scan_members(&member("WARC/1.0\r\n", 1));
    assert_eq!(verdict(&scan), Verdict::Sequential { members: 1 });
    let scan = scan_members(&[0x1f, 0x8b, 0x08]);
    assert_eq!(verdict(&scan), Verdict::Sequential { members: 0 });
}

#[test]
fn other_files_are_not_gzip() {
    assert_eq!(verdict(&scan_members(b"WARC/1.0\r\n")), Verdict::NotGzip);
    assert_eq!(verdict(&scan_members(&[0x1f, 0x8b])), Verdict::NotGzip);
    assert_eq!(verdict(&scan_members(&[0, 0x1f, 0x8b, 0x08])), Verdict::NotGzip);
}

#[test]
fn a_search_goes_on_behind_each_candidate() {
    let mut buf = vec![0u8; 400];
    for at in [0usize, 10, 127, 130, 397] {
        buf[at..at + 3].copy_from_slice(&[0x1f, 0x8b, 0x08]);
    }
    let mut scan = MemberScan::new();
    assert_eq!(scan.next_candidate(&buf), Some(0));
    scan.note(0, true);
    assert_eq!(scan.next_candidate(&buf), Some(130));
    scan.note(130, false);
    assert_eq!(scan.next_candidate(&buf), Some(397));
    scan.note(397, true);
    assert_eq!(scan.next_candidate(&buf), None);
    assert_eq!(verdict(&Some(scan)), Verdict::Splittable { members: 2, rejected: 1 });
}
