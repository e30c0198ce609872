//! From touch events to pointer actions: input sanitation and the single-pointer policy.
//!
//! Touch coordinates arrive unchecked, so this module rejects what is no number and clamps the
//! rest to the unit square. One pointer owns the cursor from its press to its release; events of
//! any other pointer in between are ignored.

use vstd::prelude::*;
use crate::bits::{clamp_unit, is_finite};
use crate::protocol::messages::{TouchEvent, TouchPhase};

verus! {

/// A point of the unit square, with the top left corner as its origin: the coordinates of a touch
/// after sanitation, as bit patterns of single-precision numbers.
#[derive(Clone, Copy, Debug, PartialEq, Eq, Structural)]
pub struct UnitPoint {
    pub nx_bits: u32,
    pub ny_bits: u32,
}

/// Why a touch could not be mapped.
#[derive(Clone, Copy, Debug, PartialEq, Eq, Structural)]
pub enum MapError {
    /// A coordinate is infinite or not a number.
    NotFinite,
}

/// The point that a touch at these coordinates stands for.
pub open spec fn unit_point_of(nx_bits: u32, ny_bits: u32) -> Result<UnitPoint, MapError> {
    if crate::bits::finite(nx_bits) && crate::bits::finite(ny_bits) {
        Ok(
            UnitPoint {
                nx_bits: crate::bits::clamped(nx_bits),
                ny_bits: crate::bits::clamped(ny_bits),
            },
        )
    } else {
        Err(MapError::NotFinite)
    }
}

/// Reject coordinates that are not finite and clamp the others to the unit square. Neither axis is
/// flipped.
pub fn unit_point(nx_bits: u32, ny_bits: u32) -> (r: Result<UnitPoint, MapError>)
    ensures
        r == unit_point_of(nx_bits, ny_bits),
{
    if is_finite(nx_bits) && is_finite(ny_bits) {
        Ok(UnitPoint { nx_bits: clamp_unit(nx_bits), ny_bits: clamp_unit(ny_bits) })
    } else {
        Err(MapError::NotFinite)
    }
}

/// Whatever is mapped lies in the unit square, and a touch inside it is mapped to itself.
pub proof fn law_mapped_into_the_unit_square(nx_bits: u32, ny_bits: u32)
    ensures
        match unit_point_of(nx_bits, ny_bits) {
            Ok(at) => crate::bits::in_unit(at.nx_bits) && crate::bits::in_unit(at.ny_bits),
            Err(_) => true,
        },
        crate::bits::in_unit(nx_bits) && crate::bits::in_unit(ny_bits) ==> unit_point_of(
            nx_bits,
            ny_bits,
        ) == Ok::<UnitPoint, MapError>(UnitPoint { nx_bits, ny_bits }),
{
    crate::bits::law_clamp(nx_bits);
    crate::bits::law_clamp(ny_bits);
}

/// One action of the pointer.
#[derive(Clone, Copy, Debug, PartialEq, Eq, Structural)]
pub enum PointerAction {
    /// Press.
    Down { at: UnitPoint },
    /// Move while pressed.
    Move { at: UnitPoint },
    /// Release.
    Up { at: UnitPoint },
}

/// What one event does while `active` is the pointer that owns the cursor: the pointer that owns
/// it afterwards, and what comes out.
pub open spec fn stepped(active: Option<u32>, ev: TouchEvent) -> (
    Option<u32>,
    Result<Option<PointerAction>, MapError>,
) {
    if active is Some && ev.pointer_id != active->0 {
        (active, Ok(None))
    } else {
        match unit_point_of(ev.nx_bits, ev.ny_bits) {
            Err(e) => (active, Err(e)),
            Ok(at) => match (active, ev.phase) {
                (None, TouchPhase::Down) => (
                    Some(ev.pointer_id),
                    Ok(Some(PointerAction::Down { at })),
                ),
                (Some(_), TouchPhase::Move) => (active, Ok(Some(PointerAction::Move { at }))),
                (Some(_), TouchPhase::Up) => (None, Ok(Some(PointerAction::Up { at }))),
                _ => (active, Ok(None)),
            },
        }
    }
}

/// How far a gesture has come.
#[derive(Clone, Copy, Debug, PartialEq, Eq, Structural)]
enum PointerState {
    /// No pointer is down.
    Idle,
    /// A pointer is down and has not moved.
    Down,
    /// A pointer is down and has moved.
    Dragging,
}

/// Folds the events of all pointers into the actions of one. Its view is the pointer that owns the
/// cursor.
#[derive(Debug)]
pub struct PointerStateMachine {
    state: PointerState,
    active: Option<u32>,
}

impl View for PointerStateMachine {
    type V = Option<u32>;

    closed spec fn view(&self) -> Option<u32> {
        self.active
    }
}

impl PointerStateMachine {
    #[verifier::type_invariant]
    spec fn gesture_has_an_owner(self) -> bool {
        self.active is Some <==> self.state != PointerState::Idle
    }

    /// A machine with no gesture in progress.
    pub fn new() -> (r: Self)
        ensures
            r@ is None,
    {
        PointerStateMachine { state: PointerState::Idle, active: None }
    }

    /// Fold one event. Nothing comes out of the events of a pointer that does not own the cursor,
    /// of a move or a release without a press, and of a second press. An event with coordinates
    /// that are not finite is rejected and changes nothing.
    pub fn step(&mut self, ev: &TouchEvent) -> (r: Result<Option<PointerAction>, MapError>)
        ensures
            (final(self)@, r) == stepped(old(self)@, *ev),
    {
        proof {
            use_type_invariant(&*self);
        }
        if let Some(id) = self.active {
            if ev.pointer_id != id {
                return Ok(None);
            }
        }
        let at = match unit_point(ev.nx_bits, ev.ny_bits) {
            Ok(at) => at,
            Err(e) => {
                return Err(e);
            },
        };
        match (self.state, ev.phase) {
            (PointerState::Idle, TouchPhase::Down) => {
                *self = PointerStateMachine {
                    state: PointerState::Down,
                    active: Some(ev.pointer_id),
                };
                Ok(Some(PointerAction::Down { at }))
            },
            (PointerState::Down, TouchPhase::Move) | (PointerState::Dragging, TouchPhase::Move) => {
                self.state = PointerState::Dragging;
                Ok(Some(PointerAction::Move { at }))
            },
            (PointerState::Down, TouchPhase::Up) | (PointerState::Dragging, TouchPhase::Up) => {
                *self = PointerStateMachine { state: PointerState::Idle, active: None };
                Ok(Some(PointerAction::Up { at }))
            },
            _ => Ok(None),
        }
    }
}

impl Default for PointerStateMachine {
    fn default() -> (r: Self)
        ensures
            r@ is None,
    {
        PointerStateMachine::new()
    }
}

/// The pointer that owns the cursor after a run of events, starting with none.
pub open spec fn owner_after(events: Seq<TouchEvent>) -> Option<u32>
    decreases events.len(),
{
    if events.len() == 0 {
        None
    } else {
        stepped(owner_after(events.drop_last()), events.last()).0
    }
}

/// The actions that come out of a run of events, starting with no gesture in progress.
pub open spec fn actions_of(events: Seq<TouchEvent>) -> Seq<PointerAction>
    decreases events.len(),
{
    if events.len() == 0 {
        Seq::empty()
    } else {
        let before = actions_of(events.drop_last());
        match stepped(owner_after(events.drop_last()), events.last()).1 {
            Ok(Some(action)) => before.push(action),
            _ => before,
        }
    }
}

/// Whether the button is pressed after a run of actions, starting with it released; `None` if one
/// of them does not fit: a press of a pressed button, a move or a release of a released one.
pub open spec fn button_after(actions: Seq<PointerAction>) -> Option<bool>
    decreases actions.len(),
{
    if actions.len() == 0 {
        Some(false)
    } else {
        match (button_after(actions.drop_last()), actions.last()) {
            (Some(false), PointerAction::Down { .. }) => Some(true),
            (Some(true), PointerAction::Move { .. }) => Some(true),
            (Some(true), PointerAction::Up { .. }) => Some(false),
            _ => None,
        }
    }
}

/// Whatever events arrive, the actions form whole gestures: a press, any number of moves, a
/// release. The button is down exactly while a pointer owns the cursor.
pub proof fn law_gestures_are_well_formed(events: Seq<TouchEvent>)
    ensures
        button_after(actions_of(events)) == Some(owner_after(events) is Some),
    decreases events.len(),
{
    if events.len() > 0 {
        law_gestures_are_well_formed(events.drop_last());
        let before = actions_of(events.drop_last());
        match stepped(owner_after(events.drop_last()), events.last()).1 {
            Ok(Some(action)) => {
                assert(before.push(action).drop_last() =~= before);
            },
            _ => {},
        }
    }
}

/// While one pointer owns the cursor, no event of another one changes anything or comes out.
pub proof fn law_second_pointer_is_ignored(owner: u32, ev: TouchEvent)
    requires
        ev.pointer_id != owner,
    ensures
        stepped(Some(owner), ev) == (
            Some(owner),
            Ok::<Option<PointerAction>, MapError>(None),
        ),
{
}

/// A rejected event changes nothing.
pub proof fn law_rejected_event_changes_nothing(active: Option<u32>, ev: TouchEvent)
    ensures
        stepped(active, ev).1 is Err ==> stepped(active, ev).0 == active,
{
}

/// What renders pointer actions, such as an injector of system mouse events.
pub trait PointerSink {
    /// The actions rendered so far, oldest first.
    open spec fn dispatched(&self) -> Seq<PointerAction> {
        arbitrary()
    }

    /// Render one action.
    fn dispatch(&mut self, action: PointerAction)
        ensures
            final(self).dispatched() == old(self).dispatched().push(action),
    ;
}

/// A vector records what it is handed.
impl PointerSink for Vec<PointerAction> {
    open spec fn dispatched(&self) -> Seq<PointerAction> {
        self@
    }

    fn dispatch(&mut self, action: PointerAction) {
        self.push(action);
    }
}

/// Fold one event and render what comes out of it. Says whether there was anything to render.
pub fn inject<S: PointerSink>(
    machine: &mut PointerStateMachine,
    ev: &TouchEvent,
    sink: &mut S,
) -> (r: Result<bool, MapError>)
    ensures
        final(machine)@ == stepped(old(machine)@, *ev).0,
        match stepped(old(machine)@, *ev).1 {
            Ok(Some(action)) => r == Ok::<bool, MapError>(true) && final(sink).dispatched() == old(
                sink,
            ).dispatched().push(action),
            Ok(None) => r == Ok::<bool, MapError>(false) && *final(sink) == *old(sink),
            Err(e) => r == Err::<bool, MapError>(e) && *final(sink) == *old(sink),
        },
{
    match machine.step(ev) {
        Ok(Some(action)) => {
            sink.dispatch(action);
            Ok(true)
        },
        Ok(None) => Ok(false),
        Err(e) => Err(e),
    }
}

/// The mouse events that pointer actions are rendered as.
#[derive(Clone, Copy, Debug, PartialEq, Eq, Structural)]
pub enum MouseEvent {
    LeftDown,
    LeftDragged,
    Moved,
    LeftUp,
}

/// The mouse event of an action, given whether the button is pressed before it.
pub open spec fn mouse_event_of(pressed: bool, action: PointerAction) -> MouseEvent {
    match action {
        PointerAction::Down { .. } => MouseEvent::LeftDown,
        PointerAction::Move { .. } => if pressed {
            MouseEvent::LeftDragged
        } else {
            MouseEvent::Moved
        },
        PointerAction::Up { .. } => MouseEvent::LeftUp,
    }
}

/// Whether the button is pressed after an action.
pub open spec fn pressed_by(pressed: bool, action: PointerAction) -> bool {
    match action {
        PointerAction::Down { .. } => true,
        PointerAction::Move { .. } => pressed,
        PointerAction::Up { .. } => false,
    }
}

/// The left mouse button, as an injector has to remember it: a move while it is pressed is a drag.
#[derive(Clone, Copy, Debug, PartialEq, Eq, Structural)]
pub struct LeftButton {
    pub pressed: bool,
}

impl LeftButton {
    /// A released button.
    pub fn new() -> (r: Self)
        ensures
            !r.pressed,
    {
        LeftButton { pressed: false }
    }

    /// The mouse event to post for an action.
    pub fn render(&mut self, action: &PointerAction) -> (r: MouseEvent)
        ensures
            r == mouse_event_of(old(self).pressed, *action),
            final(self).pressed == pressed_by(old(self).pressed, *action),
    {
        match action {
            PointerAction::Down { .. } => {
                self.pressed = true;
                MouseEvent::LeftDown
            },
            PointerAction::Move { .. } => if self.pressed {
                MouseEvent::LeftDragged
            } else {
                MouseEvent::Moved
            },
            PointerAction::Up { .. } => {
                self.pressed = false;
                MouseEvent::LeftUp
            },
        }
    }
}

/// Whether the button is pressed after rendering a run of actions, starting with it released.
pub open spec fn pressed_after(actions: Seq<PointerAction>) -> bool
    decreases actions.len(),
{
    if actions.len() == 0 {
        false
    } else {
        pressed_by(pressed_after(actions.drop_last()), actions.last())
    }
}

/// The injector's button follows the gestures: it is pressed exactly while a pointer owns the
/// cursor, and a move is always rendered as a drag.
pub proof fn law_moves_are_drags(events: Seq<TouchEvent>, ev: TouchEvent)
    ensures
        pressed_after(actions_of(events)) == (owner_after(events) is Some),
        match stepped(owner_after(events), ev).1 {
            Ok(Some(action)) => mouse_event_of(pressed_after(actions_of(events)), action)
                != MouseEvent::Moved,
            _ => true,
        },
{
    law_gestures_are_well_formed(events);
    lemma_button_is_followed(actions_of(events));
}

proof fn lemma_button_is_followed(actions: Seq<PointerAction>)
    ensures
        button_after(actions) is Some ==> pressed_after(actions) == button_after(actions)->0,
    decreases actions.len(),
{
    if actions.len() > 0 {
        lemma_button_is_followed(actions.drop_last());
    }
}

/// The point of an action.
pub open spec fn point_of(action: PointerAction) -> UnitPoint {
    match action {
        PointerAction::Down { at } => at,
        PointerAction::Move { at } => at,
        PointerAction::Up { at } => at,
    }
}

/// Every action is where its event is: a press, a move and a release alike, it carries the event's
/// own coordinates, each on its own axis, if both lie in the unit range.
pub proof fn law_action_is_where_its_event_is(active: Option<u32>, ev: TouchEvent)
    requires
        crate::bits::in_unit(ev.nx_bits),
        crate::bits::in_unit(ev.ny_bits),
    ensures
        stepped(active, ev).1 is Ok,
        match stepped(active, ev).1 {
            Ok(Some(PointerAction::Down { at })) => at.nx_bits == ev.nx_bits && at.ny_bits
                == ev.ny_bits,
            Ok(Some(PointerAction::Move { at })) => at.nx_bits == ev.nx_bits && at.ny_bits
                == ev.ny_bits,
            Ok(Some(PointerAction::Up { at })) => at.nx_bits == ev.nx_bits && at.ny_bits
                == ev.ny_bits,
            _ => true,
        },
{
    crate::bits::law_clamp(ev.nx_bits);
    crate::bits::law_clamp(ev.ny_bits);
}

/// Outside the unit range, an axis is moved to the nearer edge: coordinates above one (patterns
/// above that of one, without the sign) to one, coordinates below zero (with the sign) to zero.
/// The other axis does not change by that.
pub proof fn law_action_stays_on_the_edge(active: Option<u32>, ev: TouchEvent)
    ensures
        stepped(active, ev).1 matches Ok(Some(action)) ==> {
            let at = point_of(action);
            &&& 0x3F80_0000 < ev.nx_bits < 0x8000_0000 ==> at.nx_bits == 0x3F80_0000
            &&& ev.nx_bits > 0x8000_0000 ==> at.nx_bits == 0
            &&& ev.nx_bits <= 0x3F80_0000 || ev.nx_bits == 0x8000_0000 ==> at.nx_bits == ev.nx_bits
            &&& 0x3F80_0000 < ev.ny_bits < 0x8000_0000 ==> at.ny_bits == 0x3F80_0000
            &&& ev.ny_bits > 0x8000_0000 ==> at.ny_bits == 0
            &&& ev.ny_bits <= 0x3F80_0000 || ev.ny_bits == 0x8000_0000 ==> at.ny_bits == ev.ny_bits
        },
{
    crate::bits::law_clamp(ev.nx_bits);
    crate::bits::law_clamp(ev.ny_bits);
}

/// An event is rejected exactly if it counts, as no other pointer owns the cursor, and one of its
/// coordinates is infinite or not a number: an exponent of ones, whatever the sign.
pub proof fn law_only_numbers_are_mapped(active: Option<u32>, ev: TouchEvent)
    ensures
        stepped(active, ev).1 is Err <==> {
            &&& active is None || active == Some(ev.pointer_id)
            &&& (0x7F80_0000 <= ev.nx_bits < 0x8000_0000 || ev.nx_bits >= 0xFF80_0000 || 0x7F80_0000
                <= ev.ny_bits < 0x8000_0000 || ev.ny_bits >= 0xFF80_0000)
        },
{
}

/// A gesture comes out as it is made. With no pointer down, a press makes its pointer the owner of
/// the cursor and comes out as a press; nothing else comes out or changes the owner. The owner's
/// move comes out as a move, its release as a release that sets the cursor free; a second press of
/// it does not count.
pub proof fn law_gesture_comes_out_as_made(ev: TouchEvent)
    requires
        crate::bits::in_unit(ev.nx_bits),
        crate::bits::in_unit(ev.ny_bits),
    ensures
        ({
            let (owner, r) = stepped(None, ev);
            match ev.phase {
                TouchPhase::Down => owner == Some(ev.pointer_id) && (r matches Ok(Some(action))
                    && action is Down),
                _ => owner is None && r == Ok::<Option<PointerAction>, MapError>(None),
            }
        }),
        ({
            let (owner, r) = stepped(Some(ev.pointer_id), ev);
            match ev.phase {
                TouchPhase::Move => owner == Some(ev.pointer_id) && (r matches Ok(Some(action))
                    && action is Move),
                TouchPhase::Up => owner is None && (r matches Ok(Some(action)) && action is Up),
                TouchPhase::Down => owner == Some(ev.pointer_id) && r == Ok::<
                    Option<PointerAction>,
                    MapError,
                >(None),
            }
        }),
{
}

/// A press is posted as a press and a release as a release. What comes between is posted as a drag,
/// and a move that no press came before as a plain move.
pub proof fn law_button_follows_the_actions(pressed: bool, at: UnitPoint)
    ensures
        mouse_event_of(pressed, PointerAction::Down { at }) == MouseEvent::LeftDown,
        mouse_event_of(pressed, PointerAction::Up { at }) == MouseEvent::LeftUp,
        mouse_event_of(
            pressed_by(pressed, PointerAction::Down { at }),
            PointerAction::Move { at },
        ) == MouseEvent::LeftDragged,
        mouse_event_of(
            pressed_by(pressed, PointerAction::Up { at }),
            PointerAction::Move { at },
        ) == MouseEvent::Moved,
        pressed_by(pressed, PointerAction::Move { at }) == pressed,
{
}

} // verus!
