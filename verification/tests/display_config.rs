//! The configuration of the virtual display.

use rustscreen::cg_virtual_display::config::{
    arrangement_origin, hidpi_modes, Arrangement, DisplayBounds, DisplayConfig, ModeSpec,
    Placement, PlacementResult, Side, VirtualDisplayError,
};

#[test]
fn new_uses_legacy_defaults() {
    let c = DisplayConfig::new(2400, 1080, 60f64.to_bits());
    assert_eq!(c.name, "RustScreen");
    assert_eq!(
        (c.vendor_id, c.product_id, c.serial),
        (0x726D, 0x0001, 0x0001)
    );
    assert!(!c.hidpi, "legacy default must keep HiDPI off");
    assert_eq!(c.arrangement, Arrangement::Unset);
}

#[test]
fn builders_chain_and_override() {
    let c = DisplayConfig::new(2400, 1080, 60f64.to_bits())
        .with_hidpi(true)
        .arranged(Side::Right)
        .named("Pixel");
    assert!(c.hidpi);
    assert_eq!(c.arrangement, Arrangement::Side(Side::Right));
    assert_eq!(c.name, "Pixel");
    assert_eq!((c.width, c.height, c.refresh_bits), (2400, 1080, 60f64.to_bits()));
}

#[test]
fn hidpi_off_yields_only_native_mode() {
    let modes = hidpi_modes(2400, 1080, 60f64.to_bits(), false);
    assert_eq!(
        modes,
        vec![ModeSpec {
            width: 2400,
            height: 1080,
            refresh_bits: 60f64.to_bits()
        }]
    );
}

#[test]
fn hidpi_on_adds_a_scaled_mode_native_first() {
    let modes = hidpi_modes(2400, 1080, 60f64.to_bits(), true);
    assert_eq!(modes.len(), 2, "native + one 2x-scaled mode");
    assert_eq!(
        modes[0],
        ModeSpec {
            width: 2400,
            height: 1080,
            refresh_bits: 60f64.to_bits()
        }
    );
    assert_eq!(
        modes[1],
        ModeSpec {
            width: 1200,
            height: 540,
            refresh_bits: 60f64.to_bits()
        }
    );
}

#[test]
fn hidpi_on_dedups_when_scaled_equals_native() {
    let modes = hidpi_modes(1, 1, 60f64.to_bits(), true);
    assert_eq!(
        modes,
        vec![ModeSpec {
            width: 1,
            height: 1,
            refresh_bits: 60f64.to_bits()
        }]
    );
}

fn main_at(x: i32, y: i32, w: i32, h: i32) -> DisplayBounds {
    DisplayBounds {
        x,
        y,
        width: w,
        height: h,
    }
}

#[test]
fn right_places_past_main_right_edge() {
    let o = arrangement_origin(main_at(0, 0, 1920, 1080), (2400, 1080), Side::Right);
    assert_eq!(o, (1920, 0));
}

#[test]
fn left_places_negative_by_vdisp_width() {
    let o = arrangement_origin(main_at(0, 0, 1920, 1080), (2400, 1080), Side::Left);
    assert_eq!(o, (-2400, 0));
}

#[test]
fn above_places_negative_by_vdisp_height() {
    let o = arrangement_origin(main_at(0, 0, 1920, 1080), (2400, 1080), Side::Above);
    assert_eq!(o, (0, -1080));
}

#[test]
fn below_places_past_main_bottom_edge() {
    let o = arrangement_origin(main_at(0, 0, 1920, 1080), (2400, 1080), Side::Below);
    assert_eq!(o, (0, 1080));
}

#[test]
fn respects_nonzero_main_origin() {
    let o = arrangement_origin(main_at(100, 50, 1920, 1080), (2400, 1080), Side::Right);
    assert_eq!(o, (2020, 50));
}

#[test]
fn a_display_needs_pixels_and_a_refresh_rate() {
    let check = |w, h, hz: f64| DisplayConfig::new(w, h, hz.to_bits()).check();
    assert_eq!(check(2400, 1080, 60.0), Ok(()));
    assert_eq!(check(2400, 1080, f64::MIN_POSITIVE), Ok(()));
    for (w, h, hz) in [
        (0, 1080, 60.0),
        (2400, 0, 60.0),
        (2400, 1080, 0.0),
        (2400, 1080, -0.0),
        (2400, 1080, -60.0),
        (2400, 1080, f64::INFINITY),
        (2400, 1080, f64::NAN),
    ] {
        assert_eq!(check(w, h, hz), Err(VirtualDisplayError::CreationFailed));
    }
}

#[test]
fn a_flat_display_gets_no_scaled_mode() {
    assert_eq!(hidpi_modes(2400, 1, 60f64.to_bits(), true).len(), 1);
    assert_eq!(hidpi_modes(2, 2, 60f64.to_bits(), true).len(), 2);
}

#[test]
fn a_rejected_corner_is_rolled_back() {
    let step = Placement::Begin.after(0);
    assert_eq!(step, Placement::SetOrigin);
    assert_eq!(step.after(-1), Placement::Cancel);
    assert_eq!(step.after(-1).after(0), Placement::Done(PlacementResult::OriginRejected));
    assert_eq!(step.after(0).after(0), Placement::Done(PlacementResult::Placed));
    assert_eq!(step.after(0).after(5), Placement::Done(PlacementResult::CompleteFailed));
    assert_eq!(Placement::Begin.after(1), Placement::Done(PlacementResult::BeginFailed));
}
