//! Handing the render surface from the surface callbacks to the decode session.
//!
//! The surface and the USB link arrive on independent callbacks, in no fixed order. [`WindowSlot`]
//! hands a fresh session its surface; [`SurfaceMailbox`] tells a running one that its surface was
//! replaced or destroyed. Both are the bare state machines: the caller brings the lock, the wakeup
//! and the clock.

use vstd::prelude::*;

verus! {

/// A single slot for the render window.
#[derive(Debug)]
pub struct WindowSlot<T> {
    slot: Option<T>,
}

/// What someone who waits for the window is to do.
#[derive(Debug, PartialEq, Eq)]
pub enum Taken<T> {
    /// The window is there; it now belongs to the caller.
    Window(T),
    /// The time is up.
    TimedOut,
    /// Wait for a wakeup, but at most this many milliseconds.
    Wait(u64),
}

impl<T> WindowSlot<T> {
    /// The window in the slot.
    pub closed spec fn window(&self) -> Option<T> {
        self.slot
    }

    /// An empty slot.
    pub fn new() -> (r: Self)
        ensures
            r.window() is None,
    {
        WindowSlot { slot: None }
    }

    /// Deposit the window. It replaces one that has not been taken: the freshest surface wins.
    pub fn put(&mut self, window: T)
        ensures
            final(self).window() == Some(window),
    {
        self.slot = Some(window);
    }

    /// Retract a window that has not been taken, as its surface was destroyed.
    pub fn clear(&mut self)
        ensures
            final(self).window() is None,
    {
        self.slot = None;
    }

    /// What someone finds who has waited `waited_ms` of at most `timeout_ms` milliseconds.
    pub open spec fn taken_of(window: Option<T>, waited_ms: u64, timeout_ms: u64) -> Taken<T> {
        match window {
            Some(w) => Taken::Window(w),
            None => if waited_ms >= timeout_ms {
                Taken::TimedOut
            } else {
                Taken::Wait((timeout_ms - waited_ms) as u64)
            },
        }
    }

    /// One look of someone who has waited `waited_ms` of at most `timeout_ms` milliseconds. The
    /// window is taken out, so that nobody receives it twice; the timeout bounds the whole wait,
    /// however often it is woken.
    pub fn take_blocking(&mut self, waited_ms: u64, timeout_ms: u64) -> (r: Taken<T>)
        ensures
            r == WindowSlot::taken_of(old(self).window(), waited_ms, timeout_ms),
            final(self).window() is None,
    {
        match self.slot.take() {
            Some(w) => Taken::Window(w),
            None => if waited_ms >= timeout_ms {
                Taken::TimedOut
            } else {
                Taken::Wait(timeout_ms - waited_ms)
            },
        }
    }
}

impl<T> Default for WindowSlot<T> {
    fn default() -> (r: Self)
        ensures
            r.window() is None,
    {
        WindowSlot::new()
    }
}

/// A change of the render surface of a running session.
#[derive(Debug, PartialEq, Eq)]
pub enum SurfaceChange<T> {
    /// A new surface arrived: render onto it.
    Swap(T),
    /// The surface was destroyed: stop rendering until one returns.
    Lost,
    /// Nothing changed since the last look.
    Unchanged,
}

/// The mailbox for surface changes.
#[derive(Debug)]
pub struct SurfaceMailbox<T> {
    dirty: bool,
    pending: Option<T>,
    lost: bool,
}

/// A [`SurfaceMailbox`] by its values.
pub struct Mail<T> {
    /// The newest surface that has not been taken.
    pub pending: Option<T>,
    /// Whether the surface was destroyed and none came after it.
    pub lost: bool,
    /// Whether a change is waiting to be looked at.
    pub dirty: bool,
}

impl<T> View for SurfaceMailbox<T> {
    type V = Mail<T>;

    closed spec fn view(&self) -> Mail<T> {
        Mail { pending: self.pending, lost: self.lost, dirty: self.dirty }
    }
}

/// One thing that happens to a surface.
pub enum SurfaceEvent<T> {
    Created(T),
    Destroyed,
}

impl<T> Mail<T> {
    /// Nothing to report.
    pub open spec fn empty() -> Mail<T> {
        Mail { pending: None, lost: false, dirty: false }
    }

    /// What an event leaves behind: a new surface supersedes an untaken one and any loss, and a
    /// destroyed one takes an untaken one with it.
    pub open spec fn after(self, event: SurfaceEvent<T>) -> Mail<T> {
        match event {
            SurfaceEvent::Created(w) => Mail { pending: Some(w), lost: false, dirty: true },
            SurfaceEvent::Destroyed => Mail { pending: None, lost: true, dirty: true },
        }
    }

    /// What a look finds: a surface takes precedence over a loss.
    pub open spec fn found(self) -> SurfaceChange<T> {
        match self.pending {
            Some(w) => SurfaceChange::Swap(w),
            None => if self.lost {
                SurfaceChange::Lost
            } else {
                SurfaceChange::Unchanged
            },
        }
    }
}

impl<T> SurfaceMailbox<T> {
    /// An empty mailbox.
    pub fn new() -> (r: Self)
        ensures
            r@ == Mail::<T>::empty(),
    {
        SurfaceMailbox { dirty: false, pending: None, lost: false }
    }

    /// A new surface is available.
    pub fn deposit(&mut self, window: T)
        ensures
            final(self)@ == old(self)@.after(SurfaceEvent::Created(window)),
    {
        self.pending = Some(window);
        self.lost = false;
        self.dirty = true;
    }

    /// The current surface is gone.
    pub fn mark_lost(&mut self)
        ensures
            final(self)@ == old(self)@.after(SurfaceEvent::Destroyed),
    {
        self.pending = None;
        self.lost = true;
        self.dirty = true;
    }

    /// Whether a change is waiting.
    pub fn is_dirty(&self) -> (r: bool)
        ensures
            r == self@.dirty,
    {
        self.dirty
    }

    /// Take the pending change.
    pub fn take(&mut self) -> (r: SurfaceChange<T>)
        ensures
            r == old(self)@.found(),
            final(self)@ == Mail::<T>::empty(),
    {
        self.dirty = false;
        match self.pending.take() {
            Some(w) => {
                self.lost = false;
                SurfaceChange::Swap(w)
            },
            None => if self.lost {
                self.lost = false;
                SurfaceChange::Lost
            } else {
                SurfaceChange::Unchanged
            },
        }
    }
}

impl<T> Default for SurfaceMailbox<T> {
    fn default() -> (r: Self)
        ensures
            r@ == Mail::<T>::empty(),
    {
        SurfaceMailbox::new()
    }
}

/// The mailbox after a run of events.
pub open spec fn mail_after<T>(mail: Mail<T>, events: Seq<SurfaceEvent<T>>) -> Mail<T>
    decreases events.len(),
{
    if events.len() == 0 {
        mail
    } else {
        mail_after(mail, events.drop_last()).after(events.last())
    }
}

/// Whatever happened since the last look, a look reports the latest event and nothing older: the
/// freshest surface wins, and a destroyed one is never handed out. A change is waiting exactly if
/// something happened.
pub proof fn law_latest_event_wins<T>(events: Seq<SurfaceEvent<T>>)
    ensures
        mail_after(Mail::empty(), events).found() == if events.len() == 0 {
            SurfaceChange::Unchanged
        } else {
            match events.last() {
                SurfaceEvent::Created(w) => SurfaceChange::Swap(w),
                SurfaceEvent::Destroyed => SurfaceChange::Lost,
            }
        },
        mail_after(Mail::empty(), events).dirty == (events.len() > 0),
{
}

/// What the activity of the phone tells about its surface.
#[derive(Clone, Copy, Debug, PartialEq, Eq, Structural)]
pub enum ActivityEvent {
    /// The surface is there.
    InitWindow,
    /// The surface is going away.
    TerminateWindow,
    /// Input is waiting.
    InputAvailable,
    /// The activity is going away.
    Destroy,
    /// Anything else.
    Other,
}

/// What to do about it.
#[derive(Clone, Copy, Debug, PartialEq, Eq, Structural)]
pub enum ActivityReaction {
    /// Hand the surface to whoever renders.
    Deposit,
    /// Take the surface back from everyone.
    Retract,
    /// Finish the input events, which nobody uses, so that the system does not wait for them.
    DrainInput,
    /// Take the surface back, and leave the event loop.
    RetractAndExit,
    /// Nothing.
    Ignore,
}

/// What to do about an event of the activity.
pub open spec fn reaction_of(event: ActivityEvent) -> ActivityReaction {
    match event {
        ActivityEvent::InitWindow => ActivityReaction::Deposit,
        ActivityEvent::TerminateWindow => ActivityReaction::Retract,
        ActivityEvent::InputAvailable => ActivityReaction::DrainInput,
        ActivityEvent::Destroy => ActivityReaction::RetractAndExit,
        ActivityEvent::Other => ActivityReaction::Ignore,
    }
}

/// Decide what to do about an event of the activity.
pub fn react(event: ActivityEvent) -> (r: ActivityReaction)
    ensures
        r == reaction_of(event),
{
    match event {
        ActivityEvent::InitWindow => ActivityReaction::Deposit,
        ActivityEvent::TerminateWindow => ActivityReaction::Retract,
        ActivityEvent::InputAvailable => ActivityReaction::DrainInput,
        ActivityEvent::Destroy => ActivityReaction::RetractAndExit,
        ActivityEvent::Other => ActivityReaction::Ignore,
    }
}

/// The three holders of the render surface: the slot from which a new session takes it, the
/// mailbox of a running session, and the surface itself, kept for the sessions to come.
#[derive(Debug)]
pub struct SurfaceHolders<T> {
    slot: WindowSlot<T>,
    mailbox: SurfaceMailbox<T>,
    current: Option<T>,
}

impl<T> SurfaceHolders<T> {
    /// What a new session takes.
    pub closed spec fn offered(&self) -> Option<T> {
        self.slot.window()
    }

    /// What a running session swaps to.
    pub closed spec fn swapped_in(&self) -> Option<T> {
        self.mailbox@.pending
    }

    /// Whether a running session has to stop rendering.
    pub closed spec fn withdrawn(&self) -> bool {
        self.mailbox@.lost
    }

    /// Whether a running session has something to look at.
    pub closed spec fn changed(&self) -> bool {
        self.mailbox@.dirty
    }

    /// The surface that is there.
    pub closed spec fn kept(&self) -> Option<T> {
        self.current
    }

    /// No surface yet.
    pub fn new() -> (r: Self)
        ensures
            r.offered() is None,
            r.swapped_in() is None,
            !r.withdrawn(),
            !r.changed(),
            r.kept() is None,
    {
        SurfaceHolders { slot: WindowSlot::new(), mailbox: SurfaceMailbox::new(), current: None }
    }

    /// The surface is there: every holder gets a reference to it.
    pub fn deposit(&mut self, for_mailbox: T, for_keeping: T, for_slot: T)
        ensures
            final(self).offered() == Some(for_slot),
            final(self).swapped_in() == Some(for_mailbox),
            !final(self).withdrawn(),
            final(self).changed(),
            final(self).kept() == Some(for_keeping),
    {
        self.mailbox.deposit(for_mailbox);
        self.current = Some(for_keeping);
        self.slot.put(for_slot);
    }

    /// The surface is going away: no holder keeps it.
    pub fn retract(&mut self)
        ensures
            final(self).offered() is None,
            final(self).swapped_in() is None,
            final(self).withdrawn(),
            final(self).changed(),
            final(self).kept() is None,
    {
        self.slot.clear();
        self.mailbox.mark_lost();
        self.current = None;
    }

    /// The surface that is there.
    pub fn current(&self) -> (r: Option<&T>)
        ensures
            r == match self.kept() {
                Some(w) => Some(&w),
                None => None,
            },
    {
        self.current.as_ref()
    }

    /// A new session begins: offer it the surface that is there, as an earlier session has taken
    /// the last offer. `again` is one more reference to it; without a surface nothing is offered
    /// anew.
    pub fn reseed(&mut self, again: Option<T>)
        ensures
            final(self).offered() == match again {
                Some(w) => Some(w),
                None => old(self).offered(),
            },
            final(self).swapped_in() == old(self).swapped_in(),
            final(self).withdrawn() == old(self).withdrawn(),
            final(self).changed() == old(self).changed(),
            final(self).kept() == old(self).kept(),
    {
        if let Some(w) = again {
            self.slot.put(w);
        }
    }

    /// One look of a new session that has waited `waited_ms` of at most `timeout_ms` milliseconds.
    pub fn take(&mut self, waited_ms: u64, timeout_ms: u64) -> (r: Taken<T>)
        ensures
            r == WindowSlot::taken_of(old(self).offered(), waited_ms, timeout_ms),
            final(self).offered() is None,
            final(self).swapped_in() == old(self).swapped_in(),
            final(self).withdrawn() == old(self).withdrawn(),
            final(self).changed() == old(self).changed(),
            final(self).kept() == old(self).kept(),
    {
        self.slot.take_blocking(waited_ms, timeout_ms)
    }

    /// One look of a running session.
    pub fn change(&mut self) -> (r: SurfaceChange<T>)
        ensures
            r == match old(self).swapped_in() {
                Some(w) => SurfaceChange::Swap(w),
                None => if old(self).withdrawn() {
                    SurfaceChange::Lost
                } else {
                    SurfaceChange::Unchanged
                },
            },
            final(self).swapped_in() is None,
            !final(self).withdrawn(),
            !final(self).changed(),
            final(self).offered() == old(self).offered(),
            final(self).kept() == old(self).kept(),
    {
        self.mailbox.take()
    }
}

/// A window that is there is handed out, also when the time is up; without one, the wait and what is
/// left of it add up to the timeout.
pub proof fn law_wait_is_bounded<T>(window: T, waited_ms: u64, timeout_ms: u64)
    ensures
        WindowSlot::taken_of(Some(window), waited_ms, timeout_ms) == Taken::Window(window),
        WindowSlot::<T>::taken_of(None, waited_ms, timeout_ms) matches Taken::Wait(left) ==> left
            > 0 && waited_ms + left == timeout_ms,
        waited_ms >= timeout_ms <==> WindowSlot::<T>::taken_of(None, waited_ms, timeout_ms)
            == Taken::<T>::TimedOut,
{
}

/// The surface is handed over exactly when it is there and taken back whenever it goes, with the
/// activity or before it; only the end of the activity ends the event loop.
pub proof fn law_surface_follows_the_activity(event: ActivityEvent)
    ensures
        reaction_of(event) == ActivityReaction::Deposit <==> event == ActivityEvent::InitWindow,
        reaction_of(event) == ActivityReaction::Retract || reaction_of(event)
            == ActivityReaction::RetractAndExit <==> event == ActivityEvent::TerminateWindow || event
            == ActivityEvent::Destroy,
        reaction_of(event) == ActivityReaction::RetractAndExit <==> event == ActivityEvent::Destroy,
        reaction_of(event) == ActivityReaction::DrainInput <==> event
            == ActivityEvent::InputAvailable,
{
}

} // verus!
