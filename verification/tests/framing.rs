//! Length-prefixed framing.

use rustscreen::io::{ByteCursor, ByteSink, ByteSource, IoError, Link};
use rustscreen::protocol::framing::{read_frame, write_frame, MAX_FRAME_LEN, READ_CHUNK_LEN};
use rustscreen::protocol::{protocol_version, BULK_TRANSFER_SIZE, HELLO_TAG};

#[test]
fn round_trips_a_frame() {
    let mut buf = Vec::new();
    write_frame(&mut buf, 7, &[0xDE, 0xAD, 0xBE, 0xEF]).unwrap();

    let mut cur = ByteCursor::new(buf);
    let (tag, payload) = read_frame(&mut cur).unwrap();
    assert_eq!(tag, 7);
    assert_eq!(payload, vec![0xDE, 0xAD, 0xBE, 0xEF]);
}

#[test]
fn round_trips_empty_payload() {
    let mut buf = Vec::new();
    write_frame(&mut buf, 3, &[]).unwrap();

    let mut cur = ByteCursor::new(buf);
    let (tag, payload) = read_frame(&mut cur).unwrap();
    assert_eq!(tag, 3);
    assert!(payload.is_empty());
}

#[test]
fn reads_multiple_frames_in_order() {
    let mut buf = Vec::new();
    write_frame(&mut buf, 1, b"first").unwrap();
    write_frame(&mut buf, 2, b"second").unwrap();

    let mut cur = ByteCursor::new(buf);
    let a = read_frame(&mut cur).unwrap();
    let b = read_frame(&mut cur).unwrap();
    assert_eq!(a, (1, b"first".to_vec()));
    assert_eq!(b, (2, b"second".to_vec()));
}

#[test]
fn wire_layout_is_tag_then_be_len_then_payload() {
    let mut buf = Vec::new();
    write_frame(&mut buf, 0x09, &[0xAA, 0xBB]).unwrap();
    assert_eq!(buf, vec![0x09, 0x00, 0x00, 0x00, 0x02, 0xAA, 0xBB]);
}

#[test]
fn read_truncated_header_errors() {
    let mut cur = ByteCursor::new(vec![0x01, 0x00, 0x00]);
    let err = read_frame(&mut cur).unwrap_err();
    assert_eq!(err, IoError::UnexpectedEof);
}

#[test]
fn read_truncated_payload_errors() {
    let mut cur = ByteCursor::new(vec![0x01, 0x00, 0x00, 0x00, 0x04, 0xAA, 0xBB]);
    let err = read_frame(&mut cur).unwrap_err();
    assert_eq!(err, IoError::UnexpectedEof);
}

#[test]
fn read_rejects_length_over_max() {
    let over = MAX_FRAME_LEN + 1;
    let mut header = vec![0x01];
    header.extend_from_slice(&over.to_be_bytes());
    let mut cur = ByteCursor::new(header);
    let err = read_frame(&mut cur).unwrap_err();
    assert_eq!(err.kind(), IoError::InvalidData);
}

#[test]
fn write_rejects_payload_over_max() {
    let oversized = vec![0u8; MAX_FRAME_LEN as usize + 1];
    let mut buf = Vec::new();
    let err = write_frame(&mut buf, 1, &oversized).unwrap_err();
    assert_eq!(err.kind(), IoError::InvalidInput);
    assert!(buf.is_empty(), "nothing should be written on rejection");
}

#[test]
fn read_reads_payload_in_capped_chunks() {
    let payload_len = READ_CHUNK_LEN * 3 + 123;
    let payload: Vec<u8> = (0..payload_len).map(|i| i as u8).collect();
    let mut wire = Vec::new();
    write_frame(&mut wire, 0x42, &payload).unwrap();

    let mut recorder = ByteCursor::new(wire);
    let (tag, got) = read_frame(&mut recorder).unwrap();
    assert_eq!(tag, 0x42);
    assert_eq!(got, payload, "payload must round-trip intact");
    assert!(
        recorder.largest_read() <= READ_CHUNK_LEN,
        "read_frame asked for {} bytes in one call; must never exceed the {}-byte chunk cap",
        recorder.largest_read(),
        READ_CHUNK_LEN
    );
}

#[test]
fn read_accepts_length_exactly_max() {
    let payload = vec![0xABu8; MAX_FRAME_LEN as usize];
    let mut buf = Vec::new();
    write_frame(&mut buf, 5, &payload).unwrap();
    let mut cur = ByteCursor::new(buf);
    let (tag, got) = read_frame(&mut cur).unwrap();
    assert_eq!(tag, 5);
    assert_eq!(got.len(), MAX_FRAME_LEN as usize);
    assert!(
        got.iter().all(|&b| b == 0xAB),
        "payload bytes must round-trip intact"
    );
}

#[test]
fn version_is_one() {
    assert_eq!(protocol_version(), 1);
}

#[test]
fn shared_constants() {
    assert_eq!(BULK_TRANSFER_SIZE, 16384);
    assert_eq!(HELLO_TAG, 2);
}

/// A link that hands out one byte per read, takes two per write and fails when told to.
struct TrickleLink {
    incoming: Vec<u8>,
    sent: Vec<u8>,
    fail_after: usize,
}

impl Link for TrickleLink {}

impl ByteSource for TrickleLink {
    fn read(&mut self, max: usize) -> Result<Vec<u8>, IoError> {
        if self.incoming.is_empty() || max == 0 {
            return Ok(Vec::new());
        }
        Ok(vec![self.incoming.remove(0)])
    }
}

impl ByteSink for TrickleLink {
    fn write(&mut self, bytes: &[u8]) -> Result<usize, IoError> {
        if self.sent.len() >= self.fail_after {
            return Err(IoError::BrokenPipe);
        }
        let n = bytes.len().min(2);
        self.sent.extend_from_slice(&bytes[..n]);
        Ok(n)
    }

    fn flush(&mut self) -> Result<(), IoError> {
        Ok(())
    }
}

#[test]
fn frames_survive_short_reads_and_writes() {
    let mut link = TrickleLink { incoming: Vec::new(), sent: Vec::new(), fail_after: 1000 };
    write_frame(&mut link, 9, b"hello").unwrap();
    assert_eq!(link.sent, b"\x09\x00\x00\x00\x05hello".to_vec());
    link.incoming = link.sent.clone();
    assert_eq!(read_frame(&mut link).unwrap(), (9, b"hello".to_vec()));
    assert_eq!(read_frame(&mut link).unwrap_err(), IoError::UnexpectedEof);
}

#[test]
fn a_failing_link_surfaces_its_error() {
    let mut link = TrickleLink { incoming: Vec::new(), sent: Vec::new(), fail_after: 4 };
    assert_eq!(write_frame(&mut link, 9, b"hello").unwrap_err(), IoError::BrokenPipe);
    assert_eq!(link.sent.len(), 4);
}
