//! The decoder behind the pacer.

use rustscreen::android_client::decode::{DecodeError, DecodeSession, DecoderInput, VideoDecoder};
use rustscreen::android_client::paced::{PacedDecoder, QueueingDecoder};
use rustscreen::protocol::messages::{Frame, VideoCodec};
use rustscreen::protocol::nal::CodecConfig;

/// A decoder whose queue only grows, unless it is told otherwise.
#[derive(Default)]
struct Queue {
    waiting: usize,
    configured: usize,
    fed: Vec<u64>,
    pumped: usize,
    shows: bool,
}

impl VideoDecoder for Queue {
    fn configure(&mut self, _: VideoCodec, _: &CodecConfig) -> Result<(), DecodeError> {
        self.configured += 1;
        Ok(())
    }

    fn decode(&mut self, input: &DecoderInput) -> Result<(), DecodeError> {
        self.fed.push(input.pts_us);
        self.waiting += 1;
        Ok(())
    }
}

impl QueueingDecoder for Queue {
    fn in_flight(&self) -> usize {
        self.waiting
    }

    fn pump(&mut self) -> Result<(), DecodeError> {
        self.pumped += 1;
        if self.shows {
            self.waiting = 0;
        }
        Ok(())
    }
}

fn video(pts_us: u64, keyframe: bool) -> Frame {
    let mut nal = vec![0, 0, 0, 1];
    if keyframe {
        nal.extend_from_slice(&[0x67, 0x42, 0, 0, 0, 1, 0x68, 0xCE, 0, 0, 0, 1, 0x65, 0xAA]);
    } else {
        nal.extend_from_slice(&[0x61, 0xBB]);
    }
    Frame::Video { pts_us, keyframe, nal }
}

#[test]
fn a_full_decoder_drops_forward_to_the_next_keyframe() {
    let mut decoder = PacedDecoder::new(Queue::default(), Vec::new(), 2);
    let mut session = DecodeSession::new();
    let stream = [(0, true), (1, false), (2, false), (3, false), (4, true), (5, false), (6, false)];
    for (pts, keyframe) in stream {
        session.feed(&video(pts, keyframe), &mut decoder).unwrap();
    }
    assert_eq!(decoder.dropped(), 4);
    assert_eq!(decoder.in_flight(), 3);
    let (queue, requests) = decoder.into_parts();
    assert_eq!(queue.configured, 1);
    assert_eq!(queue.fed, vec![0, 1, 4]);
    assert_eq!(queue.pumped, 4, "what is decoded is shown while frames are dropped");
    assert_eq!(requests.len(), 2, "one request for each run of dropped frames");
}

#[test]
fn a_decoder_that_keeps_up_is_given_everything() {
    let mut decoder = PacedDecoder::new(Queue { shows: true, ..Queue::default() }, Vec::new(), 0);
    let mut session = DecodeSession::new();
    session.feed(&video(0, true), &mut decoder).unwrap();
    decoder.pump().unwrap();
    session.feed(&video(1, false), &mut decoder).unwrap();
    assert_eq!(decoder.dropped(), 0);
    let (queue, requests) = decoder.into_parts();
    assert_eq!(queue.fed, vec![0, 1]);
    assert!(requests.is_empty());
}
