//! The `Capturer` seam: pulling frames off the virtual display.

use vstd::prelude::*;

verus! {

/// One frame captured from the virtual display.
#[derive(Debug, Clone, Copy, PartialEq, Eq, Structural)]
pub struct CapturedFrame {
    /// Presentation timestamp in microseconds (monotonic from capture start).
    pub pts_us: u64,
    /// Frame width in pixels.
    pub width: u32,
    /// Frame height in pixels.
    pub height: u32,
}

/// A source of captured frames.
pub trait Capturer {
    /// Every frame that was handed out so far.
    open spec fn delivered(&self) -> Seq<CapturedFrame> {
        arbitrary()
    }

    /// Whether the source has said that there is nothing more.
    open spec fn ended(&self) -> bool {
        arbitrary()
    }

    /// Pull the next captured frame, or `None` once the capture has ended.
    fn next_frame(&mut self) -> (r: Option<CapturedFrame>)
        ensures
            match r {
                Some(f) => final(self).delivered() == old(self).delivered().push(f),
                None => final(self).delivered() == old(self).delivered() && final(self).ended(),
            },
    ;
}

} // verus!
