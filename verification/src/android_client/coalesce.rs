//! Coalescing of touch moves.
//!
//! The phone reports moves far faster than the video cadence. Only the latest position matters, so
//! a move waits for the caller's send tick and is replaced by a later one. A press or a release
//! goes out at once, behind the move that was waiting, so that order is kept. There is one waiting
//! move, not one per pointer: the host drives a single cursor.

use vstd::prelude::*;
use crate::protocol::messages::{TouchEvent, TouchPhase};

verus! {

/// Coalesces moves down to the caller's send tick; presses and releases pass through.
#[derive(Debug, Clone, Copy, PartialEq, Eq)]
pub struct MoveCoalescer {
    pending: Option<TouchEvent>,
}

impl View for MoveCoalescer {
    type V = Option<TouchEvent>;

    closed spec fn view(&self) -> Option<TouchEvent> {
        self.pending
    }
}

/// What is sent at once for an event, given the waiting move.
pub open spec fn sent_now(pending: Option<TouchEvent>, ev: TouchEvent) -> Seq<TouchEvent> {
    if ev.phase == TouchPhase::Move {
        Seq::empty()
    } else {
        match pending {
            Some(moved) => seq![moved, ev],
            None => seq![ev],
        }
    }
}

/// The waiting move after an event.
pub open spec fn pending_after(pending: Option<TouchEvent>, ev: TouchEvent) -> Option<TouchEvent> {
    if ev.phase == TouchPhase::Move {
        Some(ev)
    } else {
        None
    }
}

/// What a send tick hands out, and the waiting move after it.
pub open spec fn flushed(pending: Option<TouchEvent>) -> (Option<TouchEvent>, Option<TouchEvent>) {
    (pending, None)
}

impl MoveCoalescer {
    /// A coalescer with no waiting move.
    pub fn new() -> (r: Self)
        ensures
            r@ is None,
    {
        MoveCoalescer { pending: None }
    }

    /// Take one event; the result is what to send now, in order.
    pub fn on_event(&mut self, ev: TouchEvent) -> (r: Vec<TouchEvent>)
        ensures
            r@ == sent_now(old(self)@, ev),
            final(self)@ == pending_after(old(self)@, ev),
    {
        let mut out: Vec<TouchEvent> = Vec::new();
        match ev.phase {
            TouchPhase::Move => {
                self.pending = Some(ev);
            },
            TouchPhase::Down | TouchPhase::Up => {
                if let Some(moved) = self.pending {
                    out.push(moved);
                }
                self.pending = None;
                out.push(ev);
            },
        }
        proof {
            assert(out@ =~= sent_now(old(self)@, ev));
        }
        out
    }

    /// Hand out the waiting move, if there is one. Called on each send tick.
    pub fn flush(&mut self) -> (r: Option<TouchEvent>)
        ensures
            (r, final(self)@) == flushed(old(self)@),
    {
        let r = self.pending;
        self.pending = None;
        r
    }
}

impl Default for MoveCoalescer {
    fn default() -> (r: Self)
        ensures
            r@ is None,
    {
        MoveCoalescer::new()
    }
}

/// What is sent for a run of events that ends with a flush, and what of it was sent before the
/// flush.
pub open spec fn sent_in_run(events: Seq<TouchEvent>) -> (Seq<TouchEvent>, Option<TouchEvent>)
    decreases events.len(),
{
    if events.len() == 0 {
        (Seq::empty(), None)
    } else {
        let (sent, pending) = sent_in_run(events.drop_last());
        (sent + sent_now(pending, events.last()), pending_after(pending, events.last()))
    }
}

/// What a receiver needs of a run of events: every press and release, and of each unbroken run of
/// moves the last.
pub open spec fn essential(events: Seq<TouchEvent>) -> Seq<TouchEvent>
    decreases events.len(),
{
    if events.len() == 0 {
        Seq::empty()
    } else {
        let before = essential(events.drop_last());
        if events.last().phase == TouchPhase::Move && events.len() > 1 && events[events.len()
            - 2].phase == TouchPhase::Move {
            before.drop_last().push(events.last())
        } else {
            before.push(events.last())
        }
    }
}

/// With a flush at the end, exactly the essential events are sent, in order: nothing but outdated
/// moves is lost, and no press or release overtakes a move.
pub proof fn law_only_outdated_moves_are_lost(events: Seq<TouchEvent>)
    ensures
        ({
            let (sent, pending) = sent_in_run(events);
            match pending {
                Some(moved) => sent.push(moved) == essential(events),
                None => sent == essential(events),
            }
        }),
        sent_in_run(events).1 == if events.len() > 0 && events.last().phase == TouchPhase::Move {
            Some(events.last())
        } else {
            None::<TouchEvent>
        },
    decreases events.len(),
{
    if events.len() > 0 {
        let front = events.drop_last();
        law_only_outdated_moves_are_lost(front);
        let (sent, pending) = sent_in_run(front);
        let (now, _) = sent_in_run(events);
        if front.len() > 0 {
            assert(front.last() == events[events.len() - 2]);
        }
        if events.last().phase == TouchPhase::Move {
            assert(now =~= sent);
            if pending is Some {
                assert(essential(front).drop_last() =~= sent);
            }
        } else {
            assert(now =~= essential(events));
        }
    }
}

/// A send tick hands out the move that arrived last, once: a second tick finds nothing.
pub proof fn law_tick_hands_out_once(pending: Option<TouchEvent>, moved: TouchEvent)
    requires
        moved.phase == TouchPhase::Move,
    ensures
        flushed(pending_after(pending, moved)).0 == Some(moved),
        flushed(flushed(pending).1).0 is None,
{
}

/// A press or a release goes out at once, with nothing but the waiting move before it, and a move
/// never does.
pub proof fn law_presses_do_not_wait(pending: Option<TouchEvent>, ev: TouchEvent)
    ensures
        ev.phase == TouchPhase::Move <==> sent_now(pending, ev).len() == 0,
        ev.phase != TouchPhase::Move ==> {
            &&& sent_now(pending, ev).last() == ev
            &&& pending is None ==> sent_now(pending, ev).len() == 1
            &&& pending matches Some(moved) ==> sent_now(pending, ev).len() == 2 && sent_now(
                pending,
                ev,
            )[0] == moved
            &&& pending_after(pending, ev) is None
        },
{
}

} // verus!
