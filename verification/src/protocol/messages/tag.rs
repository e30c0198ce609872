//! The tag byte of each kind of frame. New kinds are appended; a number is never given anew.

use vstd::prelude::*;

verus! {

/// [`Frame::Handshake`](super::Frame::Handshake)
pub const HANDSHAKE: u8 = 1;

/// [`Frame::VideoConfig`](super::Frame::VideoConfig)
pub const VIDEO_CONFIG: u8 = 2;

/// [`Frame::Video`](super::Frame::Video)
pub const VIDEO: u8 = 3;

/// [`Frame::Touch`](super::Frame::Touch)
pub const TOUCH: u8 = 4;

/// [`Frame::Control`](super::Frame::Control)
pub const CONTROL: u8 = 5;

/// [`Frame::ClockPing`](super::Frame::ClockPing)
pub const CLOCK_PING: u8 = 6;

/// [`Frame::ClockPong`](super::Frame::ClockPong)
pub const CLOCK_PONG: u8 = 7;

/// [`Frame::Stats`](super::Frame::Stats)
pub const STATS: u8 = 8;

} // verus!
