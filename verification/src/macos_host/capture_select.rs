//! Which capture adapter to drive for a display.

use vstd::prelude::*;

verus! {

/// A source of the displays that ScreenCaptureKit can share.
pub trait DisplaySource {
    /// The ids of those displays.
    open spec fn shareable(&self) -> Seq<u32> {
        arbitrary()
    }

    /// The ids of the displays that can be shared now; empty when the permission is missing.
    fn shareable_display_ids(&self) -> (ids: Vec<u32>)
        ensures
            ids@ == self.shareable(),
    ;
}

/// A list of ids is a source of its own.
impl DisplaySource for Vec<u32> {
    open spec fn shareable(&self) -> Seq<u32> {
        self@
    }

    fn shareable_display_ids(&self) -> Vec<u32> {
        let ids: Vec<u32> = vstd::slice::slice_to_vec(self.as_slice());
        ids
    }
}

/// The capture adapters.
#[derive(Clone, Copy, Debug, PartialEq, Eq, Structural)]
pub enum CaptureBackend {
    /// ScreenCaptureKit, for a display that can be shared.
    ScreenCaptureKit,
    /// `CGDisplayStream`, for any other.
    CgDisplayStream,
}

/// The adapter for a display, given those that can be shared.
pub open spec fn backend_for(shareable: Seq<u32>, target_id: u32) -> CaptureBackend {
    if shareable.contains(target_id) {
        CaptureBackend::ScreenCaptureKit
    } else {
        CaptureBackend::CgDisplayStream
    }
}

/// Choose the adapter for `target_id`, by its id and not by its place in the list.
pub fn select_backend<S: DisplaySource>(source: &S, target_id: u32) -> (r: CaptureBackend)
    ensures
        r == backend_for(source.shareable(), target_id),
{
    let ids: Vec<u32> = source.shareable_display_ids();
    let mut i: usize = 0;
    while i < ids.len()
        invariant
            i <= ids@.len(),
            ids@ == source.shareable(),
            forall|j: int| 0 <= j < i ==> ids@[j] != target_id,
        decreases ids.len() - i,
    {
        if ids[i] == target_id {
            return CaptureBackend::ScreenCaptureKit;
        }
        i += 1;
    }
    CaptureBackend::CgDisplayStream
}

/// A display that can be shared is captured by sharing it, wherever it stands in the list; any other
/// is captured as a stream.
pub proof fn law_shareable_displays_are_shared(before: Seq<u32>, target_id: u32, behind: Seq<u32>)
    ensures
        backend_for(before.push(target_id) + behind, target_id) == CaptureBackend::ScreenCaptureKit,
        (forall|i: int| 0 <= i < before.len() ==> #[trigger] before[i] != target_id) ==> backend_for(
            before,
            target_id,
        ) == CaptureBackend::CgDisplayStream,
{
    let ids = before.push(target_id) + behind;
    assert(ids[before.len() as int] == target_id);
}

} // verus!
