//! The host end: capture, encode and send.

pub mod aoa;
pub mod capture;
pub mod capture_select;
pub mod daemon;
pub mod encode;
pub mod encode_vt;
pub mod latency;
pub mod serve;
pub mod session;
pub mod touch;
pub mod transport;
