//! Turning raw touch samples into [`TouchEvent`]s.

pub mod action;

use vstd::prelude::*;
use crate::bits::{clamp_unit, is_finite, is_positive};
use crate::protocol::messages::{TouchEvent, TouchPhase};

verus! {

/// The phase of a masked action; `None` for an action that is no transition of a gesture.
pub open spec fn phase_of(masked_action: i32) -> Option<TouchPhase> {
    if masked_action == action::DOWN || masked_action == action::POINTER_DOWN {
        Some(TouchPhase::Down)
    } else if masked_action == action::MOVE {
        Some(TouchPhase::Move)
    } else if masked_action == action::UP || masked_action == action::POINTER_UP || masked_action
        == action::CANCEL {
        Some(TouchPhase::Up)
    } else {
        None
    }
}

/// Map a masked action to a phase. An aborted gesture is a release, so that no button stays
/// pressed on the host; secondary pointers are mapped too, as the host decides about them.
pub fn phase_for_action(masked_action: i32) -> (r: Option<TouchPhase>)
    ensures
        r == phase_of(masked_action),
{
    match masked_action {
        action::DOWN | action::POINTER_DOWN => Some(TouchPhase::Down),
        action::MOVE => Some(TouchPhase::Move),
        action::UP | action::POINTER_UP | action::CANCEL => Some(TouchPhase::Up),
        _ => None,
    }
}

/// The normalized coordinate of a sample: its share of the extent, clamped to the unit range, or
/// zero where there is no such share.
pub open spec fn normalized(coord_bits: u32, extent_bits: u32, quotient_bits: u32) -> u32 {
    if crate::bits::positive(extent_bits) && crate::bits::finite(coord_bits) {
        crate::bits::clamped(quotient_bits)
    } else {
        0
    }
}

/// Normalize a coordinate within a view of the given extent, where `quotient_bits` is the
/// coordinate divided by the extent. A coordinate outside of the view lands on its edge; an extent
/// that is not finite or not above zero, or a coordinate that is not finite, gives zero.
pub fn normalize(coord_bits: u32, extent_bits: u32, quotient_bits: u32) -> (r: u32)
    ensures
        r == normalized(coord_bits, extent_bits, quotient_bits),
{
    if !is_positive(extent_bits) || !is_finite(coord_bits) {
        return 0;
    }
    clamp_unit(quotient_bits)
}

/// A normalized coordinate is a finite number from zero to one, whatever the sample holds, as long
/// as the division gives a number.
pub proof fn law_normalized_in_unit(coord_bits: u32, extent_bits: u32, quotient_bits: u32)
    requires
        !crate::bits::nan(quotient_bits),
    ensures
        crate::bits::in_unit(normalized(coord_bits, extent_bits, quotient_bits)),
        crate::bits::finite(normalized(coord_bits, extent_bits, quotient_bits)),
{
    crate::bits::law_clamp(quotient_bits);
}

/// The event of a sample whose coordinates have been normalized; `None` for an action without a
/// phase.
pub open spec fn touch_event_of(
    masked_action: i32,
    pointer_id: u32,
    nx_bits: u32,
    ny_bits: u32,
) -> Option<TouchEvent> {
    match phase_of(masked_action) {
        Some(phase) => Some(TouchEvent { pointer_id, phase, nx_bits, ny_bits }),
        None => None,
    }
}

/// Build a [`TouchEvent`] from a sample whose coordinates have been normalized, or `None` when the
/// action has no phase.
pub fn to_touch_event(masked_action: i32, pointer_id: u32, nx_bits: u32, ny_bits: u32) -> (r: Option<
    TouchEvent,
>)
    ensures
        r == touch_event_of(masked_action, pointer_id, nx_bits, ny_bits),
{
    match phase_for_action(masked_action) {
        Some(phase) => Some(TouchEvent { pointer_id, phase, nx_bits, ny_bits }),
        None => None,
    }
}

/// Fingers going down (the first one, code 0, or another, code 5) are presses, moving (2) is a move,
/// lifting (the last one, 1, or another, 6) and an aborted gesture (3) are releases, and no other
/// code is an event. An event carries its sample's pointer and coordinates, each on its own axis.
pub proof fn law_event_is_its_sample(masked_action: i32, pointer_id: u32, nx_bits: u32, ny_bits: u32)
    ensures
        match touch_event_of(masked_action, pointer_id, nx_bits, ny_bits) {
            Some(ev) => {
                &&& ev.pointer_id == pointer_id
                &&& ev.nx_bits == nx_bits
                &&& ev.ny_bits == ny_bits
                &&& ev.phase == TouchPhase::Down <==> masked_action == 0 || masked_action == 5
                &&& ev.phase == TouchPhase::Move <==> masked_action == 2
                &&& ev.phase == TouchPhase::Up <==> masked_action == 1 || masked_action == 3
                    || masked_action == 6
            },
            None => masked_action < 0 || masked_action == 4 || masked_action > 6,
        },
{
}

/// In a view with an extent, a finite coordinate becomes its share of the extent where that lies in
/// the unit range, one where it lies above, and zero where it lies below. Anything else becomes
/// zero.
pub proof fn law_share_is_kept_in_range(coord_bits: u32, extent_bits: u32, quotient_bits: u32)
    ensures
        ({
            let r = normalized(coord_bits, extent_bits, quotient_bits);
            let extent = 0 < extent_bits < 0x7F80_0000;
            let coord = coord_bits < 0x7F80_0000 || 0x8000_0000 <= coord_bits < 0xFF80_0000;
            &&& !extent || !coord ==> r == 0
            &&& extent && coord && quotient_bits <= 0x3F80_0000 ==> r == quotient_bits
            &&& extent && coord && 0x3F80_0000 < quotient_bits <= 0x7F80_0000 ==> r == 0x3F80_0000
            &&& extent && coord && 0x8000_0000 < quotient_bits <= 0xFF80_0000 ==> r == 0
        }),
{
    crate::bits::law_finite_patterns(coord_bits, 0);
    crate::bits::law_clamp_moves_to_the_nearer_edge(quotient_bits);
}

} // verus!
