//! The echo test: send a pattern, read it back, compare.

use vstd::prelude::*;
use crate::io::{IoError, LinkState, Transport};
use crate::io::{link_failed_somehow, partly_sent};
use crate::protocol::framing::{after_frame, frame_bytes, next_frame, MAX_FRAME_LEN};
use crate::protocol::framing::{read_frame, write_frame};
use crate::time::{said_since, Clock};

verus! {

/// The tag of an echo frame. The peer echoes whatever tag it reads.
pub const ECHO_TAG: u8 = 1;

/// The test pattern: the byte at index `i` is `i` modulo 256.
pub open spec fn pattern(len: nat) -> Seq<u8> {
    Seq::new(len, |i: int| (i % 256) as u8)
}

/// Build the test pattern of a length.
pub fn make_pattern(len: usize) -> (out: Vec<u8>)
    ensures
        out@ == pattern(len as nat),
{
    let mut out: Vec<u8> = Vec::new();
    let mut i: usize = 0;
    while i < len
        invariant
            i <= len,
            out@ == pattern(i as nat),
        decreases len - i,
    {
        out.push((i % 256) as u8);
        i += 1;
        proof {
            assert(out@ =~= pattern(i as nat));
        }
    }
    out
}

/// Whether `at` is the first index at which the two differ: everything before it agrees, and at it
/// they hold different bytes or one of them has ended.
pub open spec fn first_differs_at(a: Seq<u8>, b: Seq<u8>, at: int) -> bool {
    &&& 0 <= at <= a.len()
    &&& at <= b.len()
    &&& a.take(at) == b.take(at)
    &&& a != b
    &&& at < a.len() && at < b.len() ==> a[at] != b[at]
}

/// There is at most one first difference.
pub proof fn law_first_difference_is_unique(a: Seq<u8>, b: Seq<u8>, at: int, other: int)
    requires
        first_differs_at(a, b, at),
        first_differs_at(a, b, other),
    ensures
        at == other,
{
    if at < other {
        assert(a.take(other)[at] == b.take(other)[at]);
    } else if other < at {
        assert(a.take(at)[other] == b.take(at)[other]);
    }
}

/// The first index at which `a` and `b` differ, where the end of the shorter one counts as a
/// difference; `None` only if they are equal.
pub fn first_mismatch(a: &[u8], b: &[u8]) -> (r: Option<usize>)
    ensures
        match r {
            Some(at) => first_differs_at(a@, b@, at as int),
            None => a@ == b@,
        },
{
    let mut i: usize = 0;
    while i < a.len() && i < b.len()
        invariant
            i <= a@.len(),
            i <= b@.len(),
            a@.take(i as int) == b@.take(i as int),
        decreases a.len() - i,
    {
        if a[i] != b[i] {
            return Some(i);
        }
        proof {
            assert(a@.take(i + 1) =~= a@.take(i as int).push(a@[i as int]));
            assert(b@.take(i + 1) =~= b@.take(i as int).push(b@[i as int]));
        }
        i += 1;
    }
    if a.len() != b.len() {
        return Some(i);
    }
    proof {
        assert(a@.take(i as int) =~= a@);
        assert(b@.take(i as int) =~= b@);
    }
    None
}

/// The result of an echo round trip: how many bytes were echoed, and how long that took.
#[derive(Clone, Copy, Debug, PartialEq, Eq, Structural)]
pub struct EchoStats {
    pub bytes: usize,
    pub elapsed_us: u64,
}

/// Why an echo round trip failed.
#[derive(Clone, Debug, PartialEq, Eq)]
pub enum EchoError {
    /// The link failed, or ended, or sent no valid frame.
    Link(IoError),
    /// The echo differs from the pattern, at this offset first.
    Mismatch(usize),
}

impl EchoError {
    /// The kind of input/output error that this amounts to.
    pub open spec fn kind_of(self) -> IoError {
        match self {
            EchoError::Link(e) => e.kind_of(),
            EchoError::Mismatch(_) => IoError::InvalidData,
        }
    }

    /// The kind of input/output error that this amounts to: a wrong echo is invalid data.
    pub fn kind(&self) -> (r: IoError)
        ensures
            r == self.kind_of(),
    {
        match self {
            EchoError::Link(e) => e.kind(),
            EchoError::Mismatch(_) => IoError::InvalidData,
        }
    }
}

/// The time between two readings of a clock, and none where it went back.
pub open spec fn elapsed(start: u64, end: u64) -> u64 {
    if end > start {
        (end - start) as u64
    } else {
        0
    }
}

/// What an echo round trip gives when `reply` comes back, given what the clock said.
pub open spec fn echo_outcome(
    sent: Seq<u8>,
    reply: Result<(u8, Seq<u8>), IoError>,
    said: Seq<u64>,
    r: Result<EchoStats, EchoError>,
) -> bool {
    match reply {
        Err(e) => said.len() == 1 && r == Err::<EchoStats, EchoError>(EchoError::Link(e)),
        Ok((_, got)) => said.len() == 2 && match r {
            Ok(stats) => got == sent && stats.bytes == sent.len() && stats.elapsed_us == elapsed(
                said[0],
                said[1],
            ),
            Err(EchoError::Mismatch(at)) => first_differs_at(sent, got, at as int),
            Err(EchoError::Link(_)) => false,
        },
    }
}

/// The effect of an echo round trip on a link, given what the clock said.
pub open spec fn echo_step(
    pre: LinkState,
    post: LinkState,
    sent: Seq<u8>,
    said: Seq<u64>,
    r: Result<EchoStats, EchoError>,
) -> bool {
    if sent.len() > MAX_FRAME_LEN {
        &&& r == Err::<EchoStats, EchoError>(EchoError::Link(IoError::PayloadTooLong))
        &&& post == pre
        &&& said.len() == 1
    } else {
        ||| {
            &&& r matches Err(EchoError::Link(e)) && link_failed_somehow(pre, post, e)
            &&& partly_sent(pre, post, frame_bytes(ECHO_TAG, sent))
            &&& said.len() == 1
        }
        ||| {
            &&& post.sent == pre.sent + frame_bytes(ECHO_TAG, sent)
            &&& post.all_flushed()
            &&& post.incoming == after_frame(pre.incoming)
            &&& post.fault == pre.fault
            &&& echo_outcome(sent, next_frame(pre.incoming), said, r)
        }
    }
}

/// Write `sent` as one frame, read one frame back and compare the two. The whole frame goes out
/// and is flushed before anything is read, and the peer reads it whole before it answers, so that
/// the two ends never both wait to write. `clock` is asked before the frame is written and after
/// the answer has been read.
pub fn echo_roundtrip<T: Transport, C: Clock>(t: &mut T, sent: &[u8], clock: &mut C) -> (r: Result<
    EchoStats,
    EchoError,
>)
    requires
        old(clock).running(),
    ensures
        final(t).state().faultless == old(t).state().faultless,
        final(t).state().stalled == old(t).state().stalled,
        final(clock).running(),
        old(clock).log().is_prefix_of(final(clock).log()),
        echo_step(
            old(t).state(),
            final(t).state(),
            sent@,
            said_since(old(clock).log(), final(clock).log()),
            r,
        ),
{
    let ghost asked = clock.log();
    let start: u64 = clock.now_us();
    proof {
        assert(said_since(asked, clock.log()) =~= seq![start]);
    }
    match write_frame(t, ECHO_TAG, sent) {
        Ok(_) => {},
        Err(e) => {
            return Err(EchoError::Link(e));
        },
    }
    match t.flush() {
        Ok(_) => {},
        Err(e) => {
            return Err(EchoError::Link(e));
        },
    }
    let got: Vec<u8> = match read_frame(t) {
        Ok((_, got)) => got,
        Err(e) => {
            return Err(EchoError::Link(e));
        },
    };
    let end: u64 = clock.now_us();
    proof {
        assert(said_since(asked, clock.log()) =~= seq![start, end]);
    }
    match first_mismatch(sent, got.as_slice()) {
        Some(at) => Err(EchoError::Mismatch(at)),
        None => Ok(EchoStats { bytes: sent.len(), elapsed_us: end.saturating_sub(start) }),
    }
}

/// A peer that echoes what it is sent satisfies the test, for every pattern that fits a frame.
pub proof fn law_faithful_echo_passes(
    pre: LinkState,
    post: LinkState,
    sent: Seq<u8>,
    said: Seq<u64>,
    r: Result<EchoStats, EchoError>,
)
    requires
        sent.len() <= MAX_FRAME_LEN,
        pre.faultless,
        frame_bytes(ECHO_TAG, sent).is_prefix_of(pre.incoming),
        echo_step(pre, post, sent, said, r),
    ensures
        r is Ok,
        r->Ok_0.bytes == sent.len(),
{
    let whole = frame_bytes(ECHO_TAG, sent);
    let rest = pre.incoming.skip(whole.len() as int);
    assert(pre.incoming =~= whole + rest);
    crate::protocol::framing::law_read_after_write(ECHO_TAG, sent, rest);
}

/// The time of an echo is what passed between the two readings, added to the first to give the
/// second; a clock that went back gives none.
pub proof fn law_echo_is_timed(start: u64, end: u64)
    ensures
        start <= end ==> start + elapsed(start, end) == end,
        start >= end ==> elapsed(start, end) == 0,
{
}

/// The test pattern counts up from zero, a byte at a time, and starts again when the byte is full.
pub proof fn law_pattern_counts_up(len: nat, i: int)
    requires
        0 <= i < len,
    ensures
        pattern(len).len() == len,
        pattern(len)[0] == 0,
        i + 1 < len && pattern(len)[i] < 255 ==> pattern(len)[i + 1] == pattern(len)[i] + 1,
        i + 1 < len && pattern(len)[i] == 255 ==> pattern(len)[i + 1] == 0,
{
}

/// An echo that is not faithful fails: a payload that differs is reported with the first place at
/// which it does.
pub proof fn law_unfaithful_echo_fails(
    pre: LinkState,
    post: LinkState,
    sent: Seq<u8>,
    got: Seq<u8>,
    said: Seq<u64>,
    r: Result<EchoStats, EchoError>,
)
    requires
        sent.len() <= MAX_FRAME_LEN,
        got.len() <= MAX_FRAME_LEN,
        pre.faultless,
        frame_bytes(ECHO_TAG, got).is_prefix_of(pre.incoming),
        echo_step(pre, post, sent, said, r),
        got != sent,
    ensures
        r matches Err(EchoError::Mismatch(at)) && first_differs_at(sent, got, at as int),
{
    let whole = frame_bytes(ECHO_TAG, got);
    let rest = pre.incoming.skip(whole.len() as int);
    assert(pre.incoming =~= whole + rest);
    crate::protocol::framing::law_read_after_write(ECHO_TAG, got, rest);
}

} // verus!
