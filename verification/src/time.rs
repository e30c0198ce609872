//! Where the time comes from.

use vstd::prelude::*;

verus! {

/// A clock that is asked for the time in microseconds.
pub trait Clock {
    /// Everything that it has said so far, oldest first.
    open spec fn log(&self) -> Seq<u64> {
        arbitrary()
    }

    /// Whether it can be asked.
    open spec fn running(&self) -> bool {
        true
    }

    /// Ask for the time.
    fn now_us(&mut self) -> (t: u64)
        requires
            old(self).running(),
        ensures
            final(self).running(),
            final(self).log() == old(self).log().push(t),
    ;
}

/// A function as a clock: every call is a reading.
pub struct FnClock<F: FnMut() -> u64> {
    read: F,
    said: Ghost<Seq<u64>>,
}

impl<F: FnMut() -> u64> FnClock<F> {
    /// The function behind the clock.
    pub closed spec fn read(&self) -> F {
        self.read
    }

    /// A clock that has not been asked yet.
    pub fn new(read: F) -> (r: Self)
        ensures
            r.read() == read,
            r.log() == Seq::<u64>::empty(),
            r.running() == read.requires(()),
    {
        FnClock { read, said: Ghost(Seq::empty()) }
    }
}

impl<F: FnMut() -> u64> Clock for FnClock<F> {
    closed spec fn log(&self) -> Seq<u64> {
        self.said@
    }

    closed spec fn running(&self) -> bool {
        self.read.requires(())
    }

    fn now_us(&mut self) -> (t: u64)
        ensures
            old(self).read().ensures((), t),
    {
        let t: u64 = (self.read)();
        self.said = Ghost(self.said@.push(t));
        t
    }
}

/// What a clock has said between two moments.
pub open spec fn said_since(before: Seq<u64>, after: Seq<u64>) -> Seq<u64> {
    after.skip(before.len() as int)
}

} // verus!
