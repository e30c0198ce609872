//! Input-side frame pacing: bounding what waits in the decoder.
//!
//! A hardware decoder piles frames up in its input queue when it is fed faster than it drains. The
//! pacer decides, per frame, whether to feed or to drop it. As delta frames depend on the frames
//! before them, everything after a dropped delta is dropped too, up to the next keyframe.

use vstd::prelude::*;

verus! {

/// The pacer's decision for one frame.
#[derive(Debug, Clone, Copy, PartialEq, Eq, Structural)]
pub enum Admission {
    /// Feed this frame to the decoder.
    Feed,
    /// Drop this frame.
    Drop,
    /// Drop this frame, the first of a run of dropped ones, and ask the host for a keyframe.
    DropAndRequestKeyframe,
}

/// Bounds the decoder's input depth by dropping forward to the next keyframe.
#[derive(Debug, Clone, Copy, PartialEq, Eq, Structural)]
pub struct InputPacer {
    max_in_flight: usize,
    dropping: bool,
}

/// An [`InputPacer`] by its values.
pub struct PacerView {
    /// Frames are fed while the depth is below this.
    pub max_in_flight: nat,
    /// Whether a frame has been dropped since the last one that was fed.
    pub dropping: bool,
}

/// The decision on one frame, and the pacer after it.
pub open spec fn paced(p: PacerView, keyframe: bool, in_flight: nat) -> (Admission, PacerView) {
    if keyframe {
        (Admission::Feed, PacerView { dropping: false, ..p })
    } else if p.dropping {
        (Admission::Drop, p)
    } else if in_flight >= p.max_in_flight {
        (Admission::DropAndRequestKeyframe, PacerView { dropping: true, ..p })
    } else {
        (Admission::Feed, p)
    }
}

impl View for InputPacer {
    type V = PacerView;

    closed spec fn view(&self) -> PacerView {
        PacerView { max_in_flight: self.max_in_flight as nat, dropping: self.dropping }
    }
}

impl InputPacer {
    /// New pacer that feeds while the depth is below `max_in_flight`; zero counts as one.
    pub fn new(max_in_flight: usize) -> (r: Self)
        ensures
            r@.max_in_flight == if max_in_flight == 0 {
                1
            } else {
                max_in_flight as nat
            },
            !r@.dropping,
    {
        InputPacer {
            max_in_flight: if max_in_flight == 0 {
                1
            } else {
                max_in_flight
            },
            dropping: false,
        }
    }

    /// Decide about the next frame, given how many frames wait in the decoder.
    pub fn admits(&mut self, keyframe: bool, in_flight: usize) -> (r: Admission)
        ensures
            (r, final(self)@) == paced(old(self)@, keyframe, in_flight as nat),
    {
        if self.dropping {
            if keyframe {
                self.dropping = false;
                Admission::Feed
            } else {
                Admission::Drop
            }
        } else if !keyframe && in_flight >= self.max_in_flight {
            self.dropping = true;
            Admission::DropAndRequestKeyframe
        } else {
            Admission::Feed
        }
    }
}

/// The pacer after a run of frames, each given by its keyframe flag and the depth it met.
pub open spec fn paced_run(p: PacerView, frames: Seq<(bool, nat)>) -> PacerView
    decreases frames.len(),
{
    if frames.len() == 0 {
        p
    } else {
        paced(paced_run(p, frames.drop_last()), frames.last().0, frames.last().1).1
    }
}

/// The decision on the `i`-th frame of a run.
pub open spec fn decision(p: PacerView, frames: Seq<(bool, nat)>, i: int) -> Admission {
    paced(paced_run(p, frames.take(i)), frames[i].0, frames[i].1).0
}

/// A keyframe is always fed, and ends any run of dropped frames.
pub proof fn law_keyframe_always_fed(p: PacerView, in_flight: nat)
    ensures
        paced(p, true, in_flight).0 == Admission::Feed,
        !paced(p, true, in_flight).1.dropping,
{
}

/// A delta is fed only where nothing has been dropped since the last keyframe and the depth is
/// below the limit.
pub proof fn law_fed_delta_is_decodable(p: PacerView, in_flight: nat)
    ensures
        (paced(p, false, in_flight).0 == Admission::Feed) == (!p.dropping && in_flight
            < p.max_in_flight),
{
}

/// Once a frame has been dropped, every frame up to the next keyframe is dropped without another
/// request: each run of dropped frames asks for exactly one keyframe, on its first frame.
pub proof fn law_one_request_per_drop_run(
    p: PacerView,
    frames: Seq<(bool, nat)>,
    first: int,
    i: int,
)
    requires
        0 <= first < i < frames.len(),
        decision(p, frames, first) == Admission::DropAndRequestKeyframe,
        forall|j: int| first < j <= i ==> !(#[trigger] frames[j]).0,
    ensures
        decision(p, frames, i) == Admission::Drop,
{
    lemma_still_dropping(p, frames, first, i);
}

proof fn lemma_still_dropping(p: PacerView, frames: Seq<(bool, nat)>, first: int, i: int)
    requires
        0 <= first < i < frames.len(),
        decision(p, frames, first) == Admission::DropAndRequestKeyframe,
        forall|j: int| first < j <= i ==> !(#[trigger] frames[j]).0,
    ensures
        paced_run(p, frames.take(i)).dropping,
    decreases i,
{
    assert(frames.take(i).drop_last() =~= frames.take(i - 1));
    assert(frames.take(i).last() == frames[i - 1]);
    if i - 1 > first {
        lemma_still_dropping(p, frames, first, i - 1);
    }
}

/// The first delta that meets a full decoder is dropped with a request, and begins a run of dropped
/// frames; only a keyframe ends one. A delta that is fed changes nothing, and the limit never
/// changes.
pub proof fn law_first_drop_asks(p: PacerView, keyframe: bool, in_flight: nat)
    ensures
        !keyframe && !p.dropping && in_flight >= p.max_in_flight ==> paced(p, keyframe, in_flight).0
            == Admission::DropAndRequestKeyframe,
        paced(p, keyframe, in_flight).0 == Admission::DropAndRequestKeyframe ==> !keyframe
            && !p.dropping && in_flight >= p.max_in_flight,
        paced(p, keyframe, in_flight).1.dropping == (paced(p, keyframe, in_flight).0
            != Admission::Feed),
        paced(p, keyframe, in_flight).1.max_in_flight == p.max_in_flight,
{
}

} // verus!
