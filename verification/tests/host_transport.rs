//! The echo test.

use rustscreen::io::{ByteSink, ByteSource, IoError, Link, MemoryLink};
use rustscreen::macos_host::transport::{
    echo_roundtrip, first_mismatch, make_pattern, EchoError, ECHO_TAG,
};
use rustscreen::protocol::framing::{read_frame, write_frame, MAX_FRAME_LEN};
use rustscreen::time::FnClock;
use std::collections::VecDeque;

#[derive(Default)]
struct LoopbackTransport {
    buf: VecDeque<u8>,
}

impl Link for LoopbackTransport {}

impl ByteSink for LoopbackTransport {
    fn write(&mut self, data: &[u8]) -> Result<usize, IoError> {
        self.buf.extend(data);
        Ok(data.len())
    }

    fn flush(&mut self) -> Result<(), IoError> {
        Ok(())
    }
}

impl ByteSource for LoopbackTransport {
    fn read(&mut self, max: usize) -> Result<Vec<u8>, IoError> {
        let n = max.min(self.buf.len());
        Ok(self.buf.drain(..n).collect())
    }
}

#[derive(Default)]
struct ChunkedLoopback {
    buf: VecDeque<u8>,
}

const CHUNK: usize = 16 * 1024;

impl Link for ChunkedLoopback {}

impl ByteSink for ChunkedLoopback {
    fn write(&mut self, data: &[u8]) -> Result<usize, IoError> {
        self.buf.extend(data);
        Ok(data.len())
    }

    fn flush(&mut self) -> Result<(), IoError> {
        Ok(())
    }
}

impl ByteSource for ChunkedLoopback {
    fn read(&mut self, max: usize) -> Result<Vec<u8>, IoError> {
        let n = max.min(self.buf.len()).min(CHUNK);
        Ok(self.buf.drain(..n).collect())
    }
}

#[derive(Default)]
struct CorruptingLoopback {
    buf: VecDeque<u8>,
    read_so_far: usize,
    flipped: bool,
}

impl Link for CorruptingLoopback {}

impl ByteSink for CorruptingLoopback {
    fn write(&mut self, data: &[u8]) -> Result<usize, IoError> {
        self.buf.extend(data);
        Ok(data.len())
    }

    fn flush(&mut self) -> Result<(), IoError> {
        Ok(())
    }
}

impl ByteSource for CorruptingLoopback {
    fn read(&mut self, max: usize) -> Result<Vec<u8>, IoError> {
        let n = max.min(self.buf.len());
        let mut out: Vec<u8> = self.buf.drain(..n).collect();
        // The first payload byte stands behind the five bytes of the header.
        if !self.flipped && (self.read_so_far..self.read_so_far + n).contains(&5) {
            out[5 - self.read_so_far] ^= 0xFF;
            self.flipped = true;
        }
        self.read_so_far += n;
        Ok(out)
    }
}

#[test]
fn make_pattern_is_index_mod_256() {
    let p = make_pattern(1 << 20);
    assert_eq!(p.len(), 1 << 20);
    assert_eq!(p[0], 0);
    assert_eq!(p[255], 255);
    assert_eq!(p[256], 0);
    assert_eq!(p[257], 1);
}

#[test]
fn first_mismatch_finds_offset() {
    assert_eq!(first_mismatch(b"abcd", b"abxd"), Some(2));
}

#[test]
fn first_mismatch_reports_length_diff() {
    assert_eq!(first_mismatch(b"abc", b"abcd"), Some(3));
    assert_eq!(first_mismatch(b"abcd", b"abc"), Some(3));
}

#[test]
fn first_mismatch_none_when_equal() {
    assert_eq!(first_mismatch(b"abcd", b"abcd"), None);
}

#[test]
fn loopback_echo_roundtrips_1mib() {
    let mut t = LoopbackTransport::default();
    let p = make_pattern(1 << 20);
    let stats = echo_roundtrip(&mut t, &p, &mut FnClock::new(|| 0)).unwrap();
    assert_eq!(stats.bytes, 1 << 20);
}

#[test]
fn echo_roundtrip_detects_corruption() {
    let mut t = CorruptingLoopback::default();
    let p = make_pattern(1 << 20);
    let err = echo_roundtrip(&mut t, &p, &mut FnClock::new(|| 0)).unwrap_err();
    assert_eq!(err.kind(), IoError::InvalidData);
}

#[test]
fn chunked_loopback_roundtrips_1mib() {
    let mut t = ChunkedLoopback::default();
    let p = make_pattern(1 << 20);
    let stats = echo_roundtrip(&mut t, &p, &mut FnClock::new(|| 0)).unwrap();
    assert_eq!(stats.bytes, 1 << 20);
}

#[test]
fn framing_round_trips_over_transport() {
    let mut t = LoopbackTransport::default();
    let payload = make_pattern(4096);
    write_frame(&mut t, 7, &payload).unwrap();
    let (tag, got) = read_frame(&mut t).unwrap();
    assert_eq!(tag, 7);
    assert_eq!(got, payload);
}

#[test]
fn an_echo_is_timed_and_names_its_first_wrong_byte() {
    let mut reply = Vec::new();
    write_frame(&mut reply, ECHO_TAG, b"abcd").unwrap();
    write_frame(&mut reply, ECHO_TAG, b"abxd").unwrap();
    let mut t = MemoryLink::new(reply);
    let mut times = [1000u64, 41_000].into_iter();
    let mut clock = FnClock::new(|| times.next().unwrap());
    let stats = echo_roundtrip(&mut t, b"abcd", &mut clock).unwrap();
    assert_eq!((stats.bytes, stats.elapsed_us), (4, 40_000));
    assert_eq!(
        echo_roundtrip(&mut t, b"abcd", &mut FnClock::new(|| 0)),
        Err(EchoError::Mismatch(2))
    );
    assert_eq!(
        echo_roundtrip(&mut t, b"abcd", &mut FnClock::new(|| 0)),
        Err(EchoError::Link(IoError::UnexpectedEof))
    );
    assert!(!t.stalled());
}

#[test]
fn a_pattern_that_fits_no_frame_is_not_sent() {
    let mut t = MemoryLink::new(Vec::new());
    let p = make_pattern(MAX_FRAME_LEN as usize + 1);
    assert_eq!(
        echo_roundtrip(&mut t, &p, &mut FnClock::new(|| 0)),
        Err(EchoError::Link(IoError::PayloadTooLong))
    );
    assert!(t.sent().is_empty());
}
