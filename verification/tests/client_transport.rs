//! The echo loop.

use rustscreen::android_client::transport::echo_loop;
use rustscreen::io::{ByteSink, ByteSource, IoError, Link};
use rustscreen::protocol::framing::write_frame;
use std::collections::VecDeque;

/// A duplex link with a preloaded queue to read from and a sink to write to.

struct DuplexFake {
    read_queue: VecDeque<u8>,
    write_sink: Vec<u8>,
    max_read: usize,
}

impl Link for DuplexFake {}

impl ByteSource for DuplexFake {
    fn read(&mut self, max: usize) -> Result<Vec<u8>, IoError> {
        let n = max.min(self.read_queue.len()).min(self.max_read);
        Ok(self.read_queue.drain(..n).collect())
    }
}

impl ByteSink for DuplexFake {
    fn write(&mut self, data: &[u8]) -> Result<usize, IoError> {
        self.write_sink.extend_from_slice(data);
        Ok(data.len())
    }

    fn flush(&mut self) -> Result<(), IoError> {
        Ok(())
    }
}

fn make_pattern(len: usize) -> Vec<u8> {
    (0..len).map(|i| (i % 256) as u8).collect()
}

#[test]
fn echo_loop_echoes_framed_messages_until_eof() {
    let p1 = make_pattern(1 << 20);
    let p2 = make_pattern(4096);
    let mut framed = Vec::new();
    write_frame(&mut framed, 1, &p1).unwrap();
    write_frame(&mut framed, 2, &p2).unwrap();

    let mut fake = DuplexFake {
        read_queue: framed.iter().copied().collect(),
        write_sink: Vec::new(),
        max_read: 16 * 1024,
    };
    let total = echo_loop(&mut fake).unwrap();
    assert_eq!(total, (1 << 20) + 4096);
    assert_eq!(fake.write_sink, framed);
}

#[test]
fn echo_loop_returns_zero_on_immediate_eof() {
    let mut fake = DuplexFake {
        read_queue: VecDeque::new(),
        write_sink: Vec::new(),
        max_read: 16 * 1024,
    };
    assert_eq!(echo_loop(&mut fake).unwrap(), 0);
    assert!(fake.write_sink.is_empty());
}

#[test]
fn a_frame_that_is_too_long_ends_the_loop_with_an_error() {
    let mut framed = Vec::new();
    write_frame(&mut framed, 1, b"ok").unwrap();
    let echoed = framed.clone();
    framed.extend_from_slice(&[1, 0xFF, 0xFF, 0xFF, 0xFF]);
    let mut fake = DuplexFake {
        read_queue: framed.into_iter().collect(),
        write_sink: Vec::new(),
        max_read: 3,
    };
    assert_eq!(echo_loop(&mut fake), Err(IoError::FrameTooLong));
    assert_eq!(fake.write_sink, echoed);
}
