//! Masked action codes of `android.view.MotionEvent`.

use vstd::prelude::*;

verus! {

/// `ACTION_DOWN`: the first pointer touches down.
pub const DOWN: i32 = 0;

/// `ACTION_UP`: the last pointer lifts.
pub const UP: i32 = 1;

/// `ACTION_MOVE`: a pointer moved.
pub const MOVE: i32 = 2;

/// `ACTION_CANCEL`: the gesture was aborted.
pub const CANCEL: i32 = 3;

/// `ACTION_POINTER_DOWN`: a secondary pointer touches down.
pub const POINTER_DOWN: i32 = 5;

/// `ACTION_POINTER_UP`: a secondary pointer lifts.
pub const POINTER_UP: i32 = 6;

} // verus!
