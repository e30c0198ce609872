//! The protocol that both ends of the link share.

pub mod clock;
pub mod framing;
pub mod messages;
pub mod nal;
pub mod wire;

use vstd::prelude::*;

verus! {

/// Maximum size, in bytes, of a single USB bulk transfer on the link.
///
/// Both ends size their transfers by this one constant: the gadget driver on the phone bounds
/// each USB OUT request by the size that was passed to `read`, so a host transfer larger than the
/// phone's read would be truncated and the link would deadlock.
pub const BULK_TRANSFER_SIZE: usize = 16384;

/// Frame tag of the connect "hello": the phone sends one empty frame with this tag the instant it
/// opens the accessory, and the host reads it before it writes anything.
pub const HELLO_TAG: u8 = 2;

/// The protocol version that this build speaks.
pub fn protocol_version() -> (version: u32)
    ensures
        version == 1,
{
    1
}

} // verus!
