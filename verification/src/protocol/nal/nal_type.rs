//! The H.264 `nal_unit_type` values that matter here: the low five bits of a unit's first byte.

use vstd::prelude::*;

verus! {

/// Coded slice of a non-IDR picture.
pub const NON_IDR_SLICE: u8 = 1;

/// Coded slice of an IDR picture: a keyframe that a decoder can start from.
pub const IDR_SLICE: u8 = 5;

/// Sequence parameter set.
pub const SPS: u8 = 7;

/// Picture parameter set.
pub const PPS: u8 = 8;

} // verus!
