//! RustScreen: an Android phone as a USB second monitor for a Mac.
//!
//! The library holds what both ends decide and compute: the wire protocol, the streaming
//! sessions, the latency bookkeeping, the display geometry and the packaging rules. What touches
//! a device, a file or a clock lives in the application around it.

pub mod android_client;
pub mod bits;
pub mod cg_virtual_display;
pub mod count;
pub mod io;
pub mod macos_host;
pub mod path;
pub mod protocol;
pub mod text;
pub mod time;
pub mod wording;
pub mod xtask;
