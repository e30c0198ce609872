//! The echo loop: every frame that arrives goes straight back.

use vstd::prelude::*;
use crate::count::{add_count, capped_count};
use crate::io::{IoError, LinkState, Transport};
use crate::io::{link_failed, partly_sent, LinkOp};
use crate::protocol::framing::{read_frame, write_frame};
use crate::protocol::framing::{after_frame, frame_bytes, law_read_after_write};
use crate::protocol::framing::{law_write_after_read, next_frame, MAX_FRAME_LEN};

verus! {

/// The frames at the front of `bytes`.
pub open spec fn frames_in(bytes: Seq<u8>) -> Seq<(u8, Seq<u8>)>
    decreases bytes.len(),
{
    match next_frame(bytes) {
        Ok(frame) => seq![frame] + frames_in(after_frame(bytes)),
        Err(_) => Seq::empty(),
    }
}

/// The bytes of a list of frames.
pub open spec fn echo_bytes(frames: Seq<(u8, Seq<u8>)>) -> Seq<u8>
    decreases frames.len(),
{
    if frames.len() == 0 {
        Seq::empty()
    } else {
        echo_bytes(frames.drop_last()) + frame_bytes(frames.last().0, frames.last().1)
    }
}

/// How many payload bytes a list of frames holds, up to the largest count there is.
pub open spec fn payload_count(frames: Seq<(u8, Seq<u8>)>) -> u64
    decreases frames.len(),
{
    if frames.len() == 0 {
        0
    } else {
        capped_count(payload_count(frames.drop_last()), frames.last().1.len() as u64)
    }
}

/// What stands behind the frames at the front of `bytes`.
pub open spec fn stop_reason(bytes: Seq<u8>) -> IoError
    decreases bytes.len(),
{
    match next_frame(bytes) {
        Ok(_) => stop_reason(after_frame(bytes)),
        Err(e) => e,
    }
}

/// Read one frame at a time and write it straight back, until the stream ends; the result is the
/// number of payload bytes echoed. A frame is read whole before any of it is written, so that the
/// two ends never both wait to write.
pub fn echo_loop<T: Transport>(t: &mut T) -> (r: Result<u64, IoError>)
    ensures
        ({
            let pre = old(t).state();
            let post = final(t).state();
            let all = frames_in(pre.incoming);
            exists|n: int|
                {
                    &&& 0 <= n <= all.len()
                    &&& #[trigger] echoed_first(pre, post, all, n)
                    &&& match r {
                        Ok(total) => {
                            &&& total == payload_count(all.take(n))
                            &&& post.sent == pre.sent + echo_bytes(all.take(n))
                            &&& {
                                ||| {
                                    &&& n == all.len()
                                    &&& stop_reason(pre.incoming) == IoError::UnexpectedEof
                                    &&& post.fault == pre.fault
                                }
                                ||| link_failed(pre, post, LinkOp::Read, IoError::UnexpectedEof)
                            }
                        },
                        Err(e) => {
                            ||| {
                                &&& n == all.len()
                                &&& stop_reason(pre.incoming) == e
                                &&& e != IoError::UnexpectedEof
                                &&& post.sent == pre.sent + echo_bytes(all)
                                &&& post.fault == pre.fault
                            }
                            ||| link_failed(pre, post, LinkOp::Write, e)
                            ||| {
                                &&& link_failed(pre, post, LinkOp::Read, e)
                                &&& e != IoError::UnexpectedEof
                            }
                        },
                    }
                }
        }),
{
    let ghost pre = t.state();
    let ghost all = frames_in(pre.incoming);
    let ghost mut n: int = 0;
    let mut total: u64 = 0;
    proof {
        assert(all.take(0) =~= Seq::<(u8, Seq<u8>)>::empty());
        assert(pre.sent + echo_bytes(all.take(0)) =~= pre.sent);
        assert(all.skip(0) =~= all);
    }
    loop
        invariant
            pre == old(t).state(),
            all == frames_in(pre.incoming),
            0 <= n <= all.len(),
            all.skip(n) == frames_in(t.state().incoming),
            stop_reason(pre.incoming) == stop_reason(t.state().incoming),
            t.state().sent == pre.sent + echo_bytes(all.take(n)),
            t.state().fault == pre.fault,
            t.state().faultless == pre.faultless,
            total == payload_count(all.take(n)),
        decreases t.state().incoming.len(),
    {
        let ghost here = t.state().incoming;
        let ghost before = t.state();
        match read_frame(t) {
            Ok((tag, payload)) => {
                proof {
                    let rest = frames_in(after_frame(here));
                    assert(all.skip(n) =~= seq![(tag, payload@)] + rest);
                    assert(all[n] == all.skip(n)[0]);
                    assert(all.skip(n + 1) =~= all.skip(n).skip(1));
                    assert(all.skip(n).skip(1) =~= rest);
                    assert(all.take(n + 1).drop_last() =~= all.take(n));
                    assert(all.take(n + 1).last() == (tag, payload@));
                }
                match write_frame(t, tag, payload.as_slice()) {
                    Ok(_) => {},
                    Err(e) => {
                        proof {
                            assert(echoed_first(pre, t.state(), all, n));
                        }
                        return Err(e);
                    },
                }
                total = add_count(total, payload.len() as u64);
                proof {
                    assert(t.state().sent =~= pre.sent + echo_bytes(all.take(n + 1)));
                    n = n + 1;
                }
            },
            Err(e) => {
                proof {
                    assert(echoed_first(pre, t.state(), all, n));
                    assert(next_frame(here) is Err ==> all.skip(n).len() == 0);
                    assert(next_frame(here) is Err ==> all.take(n) =~= all);
                }
                if let IoError::UnexpectedEof = e {
                    return Ok(total);
                }
                return Err(e);
            },
        }
    }
}

/// The first `n` frames went out, whole; if the link failed, a part of the next may have.
pub open spec fn echoed_first(
    pre: LinkState,
    post: LinkState,
    all: Seq<(u8, Seq<u8>)>,
    n: int,
) -> bool {
    let whole = LinkState { sent: pre.sent + echo_bytes(all.take(n)), ..pre };
    if n < all.len() {
        partly_sent(whole, post, frame_bytes(all[n].0, all[n].1))
    } else {
        post.sent == whole.sent
    }
}

/// The bytes of two lists of frames are one behind the other.
proof fn lemma_echo_bytes_concat(a: Seq<(u8, Seq<u8>)>, b: Seq<(u8, Seq<u8>)>)
    ensures
        echo_bytes(a + b) == echo_bytes(a) + echo_bytes(b),
    decreases b.len(),
{
    if b.len() == 0 {
        assert(a + b =~= a);
        assert(echo_bytes(a) + echo_bytes(b) =~= echo_bytes(a));
    } else {
        assert((a + b).drop_last() =~= a + b.drop_last());
        lemma_echo_bytes_concat(a, b.drop_last());
        assert(echo_bytes(a + b) =~= echo_bytes(a) + echo_bytes(b));
    }
}

/// The bytes of a list are its first frame, then the others.
proof fn lemma_echo_bytes_first(frames: Seq<(u8, Seq<u8>)>)
    requires
        frames.len() > 0,
    ensures
        echo_bytes(frames) == frame_bytes(frames[0].0, frames[0].1) + echo_bytes(frames.skip(1)),
{
    let first = seq![frames[0]];
    assert(frames =~= first + frames.skip(1));
    lemma_echo_bytes_concat(first, frames.skip(1));
    assert(first.drop_last() =~= Seq::<(u8, Seq<u8>)>::empty());
    reveal_with_fuel(echo_bytes, 2);
    assert(echo_bytes(first) =~= frame_bytes(frames[0].0, frames[0].1));
}

/// What is echoed of a stream is the front of the stream itself, byte for byte.
pub proof fn law_echo_is_a_prefix(bytes: Seq<u8>)
    ensures
        echo_bytes(frames_in(bytes)).is_prefix_of(bytes),
    decreases bytes.len(),
{
    if next_frame(bytes) is Ok {
        let (tag, payload) = next_frame(bytes)->Ok_0;
        let rest = after_frame(bytes);
        let frames = frames_in(bytes);
        law_write_after_read(bytes);
        law_echo_is_a_prefix(rest);
        lemma_echo_bytes_first(frames);
        assert(frames.skip(1) =~= frames_in(rest));
        assert(frames[0] == (tag, payload));
        let more = echo_bytes(frames_in(rest));
        assert(bytes =~= frame_bytes(tag, payload) + rest);
        assert(more =~= rest.take(more.len() as int));
        assert(echo_bytes(frames) =~= bytes.take(echo_bytes(frames).len() as int));
    }
}

/// A stream of whole frames is echoed in full, and its end is a clean one.
pub proof fn law_whole_frames_are_echoed(frames: Seq<(u8, Seq<u8>)>)
    requires
        forall|i: int| 0 <= i < frames.len() ==> (#[trigger] frames[i]).1.len() <= MAX_FRAME_LEN,
    ensures
        frames_in(echo_bytes(frames)) == frames,
        stop_reason(echo_bytes(frames)) == IoError::UnexpectedEof,
    decreases frames.len(),
{
    if frames.len() > 0 {
        let rest = frames.skip(1);
        lemma_echo_bytes_first(frames);
        law_read_after_write(frames[0].0, frames[0].1, echo_bytes(rest));
        law_whole_frames_are_echoed(rest);
        assert(seq![frames[0]] + rest =~= frames);
    } else {
        assert(frames =~= Seq::empty());
    }
}

/// What is counted is the payloads alone: every frame is five bytes longer on the link.
pub proof fn law_payloads_are_counted(frames: Seq<(u8, Seq<u8>)>)
    requires
        echo_bytes(frames).len() <= u64::MAX,
    ensures
        payload_count(frames) + 5 * frames.len() == echo_bytes(frames).len(),
    decreases frames.len(),
{
    if frames.len() > 0 {
        law_payloads_are_counted(frames.drop_last());
    }
}

} // verus!
