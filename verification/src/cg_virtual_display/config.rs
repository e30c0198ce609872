//! What a virtual display is asked to be: size, refresh rate, identity, modes and place.

use vstd::prelude::*;
use crate::bits::is_positive_64;

verus! {

/// One display mode, in pixels. The refresh rate is the bit pattern of a double-precision number.
#[derive(Clone, Copy, Debug, PartialEq, Eq, Structural)]
pub struct ModeSpec {
    pub width: u32,
    pub height: u32,
    pub refresh_bits: u64,
}

/// A side of the main display.
#[derive(Clone, Copy, Debug, PartialEq, Eq, Structural)]
pub enum Side {
    Left,
    Right,
    Above,
    Below,
}

/// Where to place the virtual display when it first appears.
#[derive(Clone, Copy, Debug, PartialEq, Eq, Structural)]
pub enum Arrangement {
    /// Leave it to the system, which restores the last place it remembers.
    Unset,
    /// On this side of the main display.
    Side(Side),
}

/// The bounds of a display in the global coordinates of the desktop; y grows downwards.
#[derive(Clone, Copy, Debug, PartialEq, Eq, Structural)]
pub struct DisplayBounds {
    pub x: i32,
    pub y: i32,
    pub width: i32,
    pub height: i32,
}

/// The configuration of a virtual display.
#[derive(Clone, Debug, PartialEq, Eq)]
pub struct DisplayConfig {
    pub width: u32,
    pub height: u32,
    pub refresh_bits: u64,
    pub name: String,
    pub vendor_id: u32,
    pub product_id: u32,
    pub serial: u32,
    pub hidpi: bool,
    pub arrangement: Arrangement,
}

/// A configuration by its values.
pub struct DisplayConfigView {
    pub width: u32,
    pub height: u32,
    pub refresh_bits: u64,
    pub name: Seq<char>,
    pub vendor_id: u32,
    pub product_id: u32,
    pub serial: u32,
    pub hidpi: bool,
    pub arrangement: Arrangement,
}

impl View for DisplayConfig {
    type V = DisplayConfigView;

    open spec fn view(&self) -> DisplayConfigView {
        DisplayConfigView {
            width: self.width,
            height: self.height,
            refresh_bits: self.refresh_bits,
            name: self.name@,
            vendor_id: self.vendor_id,
            product_id: self.product_id,
            serial: self.serial,
            hidpi: self.hidpi,
            arrangement: self.arrangement,
        }
    }
}

/// Why a virtual display was not created.
#[derive(Clone, Copy, Debug, PartialEq, Eq, Structural)]
pub enum VirtualDisplayError {
    /// The configuration is not acceptable, or the system rejects it or cannot create displays.
    CreationFailed,
}

impl DisplayConfig {
    /// The default identity, by which the system remembers the display's place, without scaled
    /// modes and without a place of its own.
    pub fn new(width: u32, height: u32, refresh_bits: u64) -> (r: Self)
        ensures
            r@ == (DisplayConfigView {
                width,
                height,
                refresh_bits,
                name: "RustScreen"@,
                vendor_id: 0x726D,
                product_id: 1,
                serial: 1,
                hidpi: false,
                arrangement: Arrangement::Unset,
            }),
    {
        DisplayConfig {
            width,
            height,
            refresh_bits,
            name: "RustScreen".to_owned(),
            vendor_id: 0x726D,
            product_id: 1,
            serial: 1,
            hidpi: false,
            arrangement: Arrangement::Unset,
        }
    }

    /// With scaled modes, or without.
    pub fn with_hidpi(self, hidpi: bool) -> (r: Self)
        ensures
            r@ == (DisplayConfigView { hidpi, ..self@ }),
    {
        DisplayConfig { hidpi, ..self }
    }

    /// Placed on a side of the main display.
    pub fn arranged(self, side: Side) -> (r: Self)
        ensures
            r@ == (DisplayConfigView { arrangement: Arrangement::Side(side), ..self@ }),
    {
        DisplayConfig { arrangement: Arrangement::Side(side), ..self }
    }

    /// With another name.
    pub fn named(self, name: &str) -> (r: Self)
        ensures
            r@ == (DisplayConfigView { name: name@, ..self@ }),
    {
        DisplayConfig { name: name.to_owned(), ..self }
    }

    /// Whether a display can be asked for: it has pixels, and its refresh rate is a finite number
    /// above zero.
    pub open spec fn acceptable(self) -> bool {
        self.width > 0 && self.height > 0 && crate::bits::positive_64(self.refresh_bits)
    }

    /// Reject a configuration that no display can have.
    pub fn check(&self) -> (r: Result<(), VirtualDisplayError>)
        ensures
            r == if self.acceptable() {
                Ok::<(), VirtualDisplayError>(())
            } else {
                Err::<(), VirtualDisplayError>(VirtualDisplayError::CreationFailed)
            },
    {
        if self.width == 0 || self.height == 0 || !is_positive_64(self.refresh_bits) {
            return Err(VirtualDisplayError::CreationFailed);
        }
        Ok(())
    }
}

/// The modes to register: the native one and, with scaling on, one of half its size where that
/// has pixels.
pub open spec fn modes_of(width: u32, height: u32, refresh_bits: u64, hidpi: bool) -> Seq<
    ModeSpec,
> {
    let native = ModeSpec { width, height, refresh_bits };
    let half = ModeSpec { width: width / 2, height: height / 2, refresh_bits };
    if hidpi && half.width > 0 && half.height > 0 {
        seq![native, half]
    } else {
        seq![native]
    }
}

/// Build the list of modes to register.
pub fn hidpi_modes(width: u32, height: u32, refresh_bits: u64, hidpi: bool) -> (r: Vec<ModeSpec>)
    ensures
        r@ == modes_of(width, height, refresh_bits, hidpi),
{
    let mut modes: Vec<ModeSpec> = Vec::new();
    modes.push(ModeSpec { width, height, refresh_bits });
    if hidpi && width / 2 > 0 && height / 2 > 0 {
        modes.push(ModeSpec { width: width / 2, height: height / 2, refresh_bits });
    }
    proof {
        assert(modes@ =~= modes_of(width, height, refresh_bits, hidpi));
    }
    modes
}

/// The native mode comes first, no mode occurs twice, and no mode of a display that has pixels is
/// without.
pub proof fn law_modes(width: u32, height: u32, refresh_bits: u64, hidpi: bool)
    ensures
        ({
            let modes = modes_of(width, height, refresh_bits, hidpi);
            &&& modes.len() > 0
            &&& modes[0] == (ModeSpec { width, height, refresh_bits })
            &&& modes.no_duplicates()
            &&& width > 0 && height > 0 ==> forall|i: int|
                0 <= i < modes.len() ==> (#[trigger] modes[i]).width > 0 && modes[i].height > 0
        }),
{
}

/// Where the top left corner of a display of the given size goes, to sit on a side of `main`.
pub open spec fn origin_beside(main: DisplayBounds, size: (i32, i32), side: Side) -> (int, int) {
    match side {
        Side::Right => (main.x + main.width, main.y as int),
        Side::Left => (main.x - size.0, main.y as int),
        Side::Above => (main.x as int, main.y - size.1),
        Side::Below => (main.x as int, main.y + main.height),
    }
}

/// Compute where the top left corner of a display of the given size goes, to sit on a side of
/// `main`.
pub fn arrangement_origin(main: DisplayBounds, vdisp_size: (i32, i32), side: Side) -> (r: (
    i32,
    i32,
))
    requires
        i32::MIN <= origin_beside(main, vdisp_size, side).0 <= i32::MAX,
        i32::MIN <= origin_beside(main, vdisp_size, side).1 <= i32::MAX,
    ensures
        r.0 == origin_beside(main, vdisp_size, side).0,
        r.1 == origin_beside(main, vdisp_size, side).1,
{
    match side {
        Side::Right => (main.x + main.width, main.y),
        Side::Left => (main.x - vdisp_size.0, main.y),
        Side::Above => (main.x, main.y - vdisp_size.1),
        Side::Below => (main.x, main.y + main.height),
    }
}

/// Whether two rectangles, each by its corner and its size, share a point.
pub open spec fn overlap(a: (int, int), a_size: (int, int), b: (int, int), b_size: (int, int)) -> bool {
    &&& a.0 < b.0 + b_size.0
    &&& b.0 < a.0 + a_size.0
    &&& a.1 < b.1 + b_size.1
    &&& b.1 < a.1 + a_size.1
}

/// A display that is placed on a side of the main one never overlaps it.
pub proof fn law_arranged_displays_do_not_overlap(
    main: DisplayBounds,
    size: (i32, i32),
    side: Side,
)
    ensures
        !overlap(
            origin_beside(main, size, side),
            (size.0 as int, size.1 as int),
            (main.x as int, main.y as int),
            (main.width as int, main.height as int),
        ),
{
}

/// How placing a display ended. On anything but success it keeps the place the system gave it.
#[derive(Clone, Copy, Debug, PartialEq, Eq, Structural)]
pub enum PlacementResult {
    Placed,
    BeginFailed,
    OriginRejected,
    CompleteFailed,
}

/// The next call of the transaction that places a display.
#[derive(Clone, Copy, Debug, PartialEq, Eq, Structural)]
pub enum Placement {
    /// Open the transaction.
    Begin,
    /// Set the display's corner.
    SetOrigin,
    /// Commit the transaction.
    Complete,
    /// Roll the transaction back.
    Cancel,
    /// Nothing more to call.
    Done(PlacementResult),
}

impl Placement {
    /// What to call after a call that returned `status`, zero meaning success.
    pub open spec fn after_of(self, status: i32) -> Placement {
        match self {
            Placement::Begin => if status == 0 {
                Placement::SetOrigin
            } else {
                Placement::Done(PlacementResult::BeginFailed)
            },
            Placement::SetOrigin => if status == 0 {
                Placement::Complete
            } else {
                Placement::Cancel
            },
            Placement::Complete => if status == 0 {
                Placement::Done(PlacementResult::Placed)
            } else {
                Placement::Done(PlacementResult::CompleteFailed)
            },
            Placement::Cancel => Placement::Done(PlacementResult::OriginRejected),
            Placement::Done(result) => Placement::Done(result),
        }
    }

    /// What to call after a call that returned `status`, zero meaning success.
    pub fn after(self, status: i32) -> (r: Placement)
        ensures
            r == self.after_of(status),
    {
        match self {
            Placement::Begin => if status == 0 {
                Placement::SetOrigin
            } else {
                Placement::Done(PlacementResult::BeginFailed)
            },
            Placement::SetOrigin => if status == 0 {
                Placement::Complete
            } else {
                Placement::Cancel
            },
            Placement::Complete => if status == 0 {
                Placement::Done(PlacementResult::Placed)
            } else {
                Placement::Done(PlacementResult::CompleteFailed)
            },
            Placement::Cancel => Placement::Done(PlacementResult::OriginRejected),
            Placement::Done(result) => Placement::Done(result),
        }
    }
}

/// Whatever the calls return, a transaction that was opened is closed by exactly one commit or one
/// roll-back, a rejected corner is never committed, and three calls are enough.
pub proof fn law_transaction_is_balanced(s0: i32, s1: i32, s2: i32)
    ensures
        ({
            let first = Placement::Begin.after_of(s0);
            let second = first.after_of(s1);
            let third = second.after_of(s2);
            &&& s0 != 0 ==> first is Done
            &&& s0 == 0 ==> first == Placement::SetOrigin
            &&& s0 == 0 && s1 == 0 ==> second == Placement::Complete
            &&& s0 == 0 && s1 != 0 ==> second == Placement::Cancel
            &&& third is Done
        }),
{
}

/// With scaling on, a display of at least two pixels each way has a second mode of half its size,
/// rounded down, at the same rate; without, and for smaller displays, it has its native mode alone.
pub proof fn law_scaled_mode_is_half(width: u32, height: u32, refresh_bits: u64, hidpi: bool)
    ensures
        ({
            let modes = modes_of(width, height, refresh_bits, hidpi);
            &&& modes.len() == if hidpi && width >= 2 && height >= 2 {
                2int
            } else {
                1int
            }
            &&& modes.len() == 2 ==> {
                &&& 2 * modes[1].width <= width <= 2 * modes[1].width + 1
                &&& 2 * modes[1].height <= height <= 2 * modes[1].height + 1
                &&& modes[1].refresh_bits == refresh_bits
            }
        }),
{
}

/// A display that is placed on a side of the main one touches it there: the edges between the two
/// are the same, and the corners are level.
pub proof fn law_arranged_displays_touch(main: DisplayBounds, size: (i32, i32), side: Side)
    ensures
        ({
            let (left, top) = origin_beside(main, size, side);
            let right = left + size.0;
            let bottom = top + size.1;
            match side {
                Side::Right => left == main.x + main.width && top == main.y,
                Side::Left => right == main.x && top == main.y,
                Side::Above => bottom == main.y && left == main.x,
                Side::Below => top == main.y + main.height && left == main.x,
            }
        }),
{
}

/// A display counts as placed exactly if all three calls succeeded; otherwise the result names the
/// first call that did not.
pub proof fn law_placement_names_the_failure(s0: i32, s1: i32, s2: i32)
    ensures
        Placement::Begin.after_of(s0).after_of(s1).after_of(s2) == Placement::Done(
            if s0 != 0 {
                PlacementResult::BeginFailed
            } else if s1 != 0 {
                PlacementResult::OriginRejected
            } else if s2 != 0 {
                PlacementResult::CompleteFailed
            } else {
                PlacementResult::Placed
            },
        ),
{
}

/// A display can be asked for exactly if it has pixels both ways and its rate is a finite number
/// above zero: a pattern without the sign, between zero and infinity.
pub proof fn law_acceptable_displays(config: DisplayConfig)
    ensures
        config.acceptable() <==> config.width >= 1 && config.height >= 1 && config.refresh_bits >= 1
            && config.refresh_bits < 0x7FF0_0000_0000_0000,
{
}

} // verus!
