use fastwarc_grpc::grpc_frame::{
    chunk_prefix, encode_chunk_message, encode_message, encode_message_into, MessageSplitter,
};
use fastwarc_grpc::status::{Code, Status};
use prost::bytes::{Buf, BufMut, Bytes, BytesMut};
use prost::encoding::{DecodeContext, WireType};
use prost::{DecodeError, Message};

/// A request that carries one chunk.
#[derive(Clone, Debug, Default, PartialEq)]
struct ChunkRequest {
    chunk: Bytes,
}

impl Message for ChunkRequest {
    fn encode_raw(&self, buf: &mut impl BufMut) {
        prost::encoding::bytes::encode(2, &self.chunk, buf);
    }

    fn merge_field(
        &mut self,
        tag: u32,
        wire_type: WireType,
        buf: &mut impl Buf,
        ctx: DecodeContext,
    ) -> Result<(), DecodeError> {
        if tag == 2 {
            prost::encoding::bytes::merge(wire_type, &mut self.chunk, buf, ctx)
        } else {
            prost::encoding::skip_field(wire_type, tag, buf, ctx)
        }
    }

    fn encoded_len(&self) -> usize {
        prost::encoding::bytes::encoded_len(2, &self.chunk)
    }

    fn clear(&mut self) {
        self.chunk.clear();
    }
}

#[test]
fn splitter_yields_zero_copy_aligned_messages() {
    let msg = ChunkRequest { chunk: Bytes::from_static(b"WARC/1.1") };
    let framed = encode_message(&msg.encode_to_vec());
    let queued = framed.clone();
    let mut splitter = MessageSplitter::new();
    splitter.push(queued);
    let out = splitter.next_message(1 << 20).unwrap().unwrap();
    assert_eq!(out.as_ptr(), framed[5..].as_ptr());
    assert_eq!(ChunkRequest::decode(out).unwrap(), msg);
    assert!(splitter.next_message(1 << 20).unwrap().is_none());
}

#[test]
fn splitter_reassembles_straddling_messages() {
    let msg = ChunkRequest { chunk: Bytes::from(vec![7u8; 300]) };
    let framed = encode_message(&msg.encode_to_vec());
    let mut splitter = MessageSplitter::new();
    for piece in framed.chunks(11) {
        splitter.push(Bytes::copy_from_slice(piece));
    }
    let out = splitter.next_message(1 << 20).unwrap().unwrap();
    assert_eq!(ChunkRequest::decode(out).unwrap(), msg);
}

#[test]
fn chunk_prefix_matches_prost_encoding() {
    for len in [0usize, 1, 127, 128, 65536, 1 << 20] {
        let chunk = Bytes::from(vec![0xabu8; len]);
        let via_prost = encode_message(&ChunkRequest { chunk: chunk.clone() }.encode_to_vec());
        let mut hand = BytesMut::from(&chunk_prefix(len)[..]);
        hand.extend_from_slice(&chunk);
        assert_eq!(&hand[..], &via_prost[..], "len {len}");
        assert_eq!(encode_chunk_message(&chunk), via_prost, "len {len}");
    }
}

#[test]
fn splitter_rejects_compressed_flag() {
    let mut splitter = MessageSplitter::new();
    splitter.push(Bytes::from_static(&[1, 0, 0, 0, 0]));
    assert!(splitter.next_message(1 << 20).is_err());
    assert_eq!(
        splitter.next_message(1 << 20),
        Err(Status::new(Code::InvalidArgument, "compressed gRPC messages are not supported"))
    );
}

#[test]
fn splitter_rejects_oversized_message() {
    let mut splitter = MessageSplitter::new();
    splitter.push(Bytes::from_static(&[0, 0xff, 0xff, 0xff, 0xff]));
    assert!(splitter.next_message(1 << 20).is_err());
    assert_eq!(
        splitter.next_message(1 << 20),
        Err(Status::new(
            Code::OutOfRange,
            "message of 4294967295 bytes exceeds the 1048576 byte limit"
        ))
    );
}

#[test]
fn splitter_accepts_a_message_at_the_limit() {
    let framed = encode_message(&[1, 2, 3]);
    let mut splitter = MessageSplitter::new();
    splitter.push(framed);
    assert_eq!(splitter.next_message(3), Ok(Some(Bytes::from_static(&[1, 2, 3]))));
    splitter.push(encode_message(&[1, 2, 3, 4]));
    assert_eq!(splitter.next_message(3).unwrap_err().code, Code::OutOfRange);
}

#[test]
fn splitter_yields_an_empty_message_at_the_end_of_a_frame() {
    let mut splitter = MessageSplitter::new();
    splitter.push(encode_message(&[]));
    assert_eq!(splitter.next_message(16), Ok(Some(Bytes::new())));
    assert_eq!(splitter.next_message(16), Ok(None));
}

#[test]
fn splitter_waits_for_header_and_body() {
    let framed = encode_message(b"abc");
    let mut splitter = MessageSplitter::new();
    splitter.push(framed.slice(0..4));
    assert_eq!(splitter.next_message(16), Ok(None));
    splitter.push(Bytes::new());
    splitter.push(framed.slice(4..7));
    assert_eq!(splitter.next_message(16), Ok(None));
    assert!(splitter.has_room(&framed));
    splitter.push(framed.slice(7..8));
    assert_eq!(splitter.next_message(16), Ok(Some(Bytes::from_static(b"abc"))));
}

#[test]
fn messages_survive_any_fragmentation() {
    let bodies: [&[u8]; 4] = [b"one", b"", b"three", &[9; 40]];
    let mut stream = Vec::new();
    for body in bodies {
        stream.extend_from_slice(&encode_message(body));
    }
    for size in 1..stream.len() {
        let mut splitter = MessageSplitter::new();
        let mut out = Vec::new();
        for piece in stream.chunks(size) {
            splitter.push(Bytes::copy_from_slice(piece));
            while let Some(message) = splitter.next_message(64).unwrap() {
                out.push(message);
            }
        }
        assert_eq!(out, bodies.map(Bytes::copy_from_slice), "pieces of {size}");
    }
}

#[test]
fn encoding_through_a_scratch_buffer_leaves_it_empty() {
    let mut scratch = BytesMut::new();
    let first = encode_message_into(&mut scratch, b"ab");
    assert_eq!(&first[..], &[0, 0, 0, 0, 2, b'a', b'b']);
    assert!(scratch.is_empty());
    let second = encode_message_into(&mut scratch, &[7; 300]);
    assert_eq!(&second[..5], &[0, 0, 0, 1, 44]);
    assert_eq!(second.len(), 305);
}

#[test]
fn chunk_prefix_spells_out_the_lengths() {
    assert_eq!(&chunk_prefix(0)[..], &[0, 0, 0, 0, 2, 0x12, 0]);
    assert_eq!(&chunk_prefix(300)[..], &[0, 0, 0, 1, 47, 0x12, 0xac, 0x02]);
}
