//! The phone end: receive, decode and present, and send touches back.

pub mod coalesce;
pub mod decode;
pub mod mediacodec;
pub mod paced;
pub mod pacing;
pub mod rendezvous;
pub mod session;
pub mod touch;
pub mod transport;
