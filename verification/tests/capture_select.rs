//! Choosing a capture adapter.

use rustscreen::macos_host::capture_select::{select_backend, CaptureBackend, DisplaySource};

struct FakeDisplaySource {
    ids: Vec<u32>,
}
impl DisplaySource for FakeDisplaySource {
    fn shareable_display_ids(&self) -> Vec<u32> {
        self.ids.clone()
    }
}

#[test]
fn present_target_selects_screen_capture_kit() {
    let src = FakeDisplaySource { ids: vec![42] };
    assert_eq!(select_backend(&src, 42), CaptureBackend::ScreenCaptureKit);
}

#[test]
fn absent_target_falls_back_to_cg_display_stream() {
    let src = FakeDisplaySource { ids: vec![1, 2, 3] };
    assert_eq!(select_backend(&src, 42), CaptureBackend::CgDisplayStream);
}

#[test]
fn empty_list_falls_back_to_cg_display_stream() {
    let src = FakeDisplaySource { ids: vec![] };
    assert_eq!(select_backend(&src, 42), CaptureBackend::CgDisplayStream);
}

#[test]
fn matches_by_id_among_multiple_displays_not_by_index() {
    let src = FakeDisplaySource {
        ids: vec![7, 99, 42, 13],
    };
    assert_eq!(select_backend(&src, 42), CaptureBackend::ScreenCaptureKit);
    assert_eq!(select_backend(&src, 100), CaptureBackend::CgDisplayStream);
}

#[test]
fn a_plain_list_is_a_source() {
    assert_eq!(select_backend(&vec![1u32, 42], 42), CaptureBackend::ScreenCaptureKit);
    assert_eq!(select_backend(&Vec::<u32>::new(), 42), CaptureBackend::CgDisplayStream);
}
