//! Length-prefixed framing.
//!
//! ```text
//! tag (1 byte) | len (u32, big-endian) | payload (len bytes)
//! ```
//!
//! Every message on the link is one self-delimiting frame, so that a reader recovers the message
//! boundaries from a byte stream. This layer moves opaque tagged payloads.

use vstd::prelude::*;
use crate::io::{read_exact, write_all, ByteSink, ByteSource, IoError, LinkState};
use crate::io::{link_failed, reads_only, write_all_step, LinkOp};

verus! {

/// Largest payload accepted in a single frame: a corrupt length prefix must not trigger an
/// unbounded allocation. 16 MiB comfortably exceeds a 1080p keyframe.
pub const MAX_FRAME_LEN: u32 = 16777216;

/// The most bytes that [`read_frame`] asks for in a single read. A length prefix can only force
/// an allocation of this size before the payload bytes have actually arrived.
pub const READ_CHUNK_LEN: usize = 65536;

/// The four bytes of `n`, most significant first.
pub open spec fn be32(n: int) -> Seq<u8> {
    seq![
        ((n / 0x100_0000) % 0x100) as u8,
        ((n / 0x1_0000) % 0x100) as u8,
        ((n / 0x100) % 0x100) as u8,
        (n % 0x100) as u8,
    ]
}

/// The number that four bytes stand for, most significant first.
pub open spec fn from_be32(b0: u8, b1: u8, b2: u8, b3: u8) -> int {
    b0 * 0x100_0000 + b1 * 0x1_0000 + b2 * 0x100 + b3
}

/// The bytes of one frame.
pub open spec fn frame_bytes(tag: u8, payload: Seq<u8>) -> Seq<u8> {
    seq![tag] + be32(payload.len() as int) + payload
}

/// The payload length that the frame at the front of `bytes` declares.
pub open spec fn declared_len(bytes: Seq<u8>) -> int {
    from_be32(bytes[1], bytes[2], bytes[3], bytes[4])
}

/// What the front of `bytes` holds: a frame, a length over the limit, or too little.
pub open spec fn next_frame(bytes: Seq<u8>) -> Result<(u8, Seq<u8>), IoError> {
    if bytes.len() < 5 {
        Err(IoError::UnexpectedEof)
    } else if declared_len(bytes) > MAX_FRAME_LEN {
        Err(IoError::FrameTooLong)
    } else if bytes.len() < 5 + declared_len(bytes) {
        Err(IoError::UnexpectedEof)
    } else {
        Ok((bytes[0], bytes.subrange(5, 5 + declared_len(bytes))))
    }
}

/// What is left of `bytes` once [`next_frame`] has been read from them: a frame is taken whole, a
/// rejected length only with its header, and a stream that is too short is used up.
pub open spec fn after_frame(bytes: Seq<u8>) -> Seq<u8> {
    match next_frame(bytes) {
        Ok((_, payload)) => bytes.skip(5 + payload.len() as int),
        Err(IoError::FrameTooLong) => bytes.skip(5),
        Err(_) => Seq::empty(),
    }
}

/// A frame and an error, by their values.
pub open spec fn frame_view(r: Result<(u8, Vec<u8>), IoError>) -> Result<(u8, Seq<u8>), IoError> {
    match r {
        Ok((tag, payload)) => Ok((tag, payload@)),
        Err(e) => Err(e),
    }
}

/// The effect of reading one frame.
pub open spec fn read_frame_step(
    pre: LinkState,
    post: LinkState,
    r: Result<(u8, Vec<u8>), IoError>,
) -> bool {
    &&& reads_only(pre, post)
    &&& post.stalled == (pre.stalled || pre.flushed < pre.sent.len())
    &&& post.largest_read <= if READ_CHUNK_LEN > pre.largest_read {
        READ_CHUNK_LEN as nat
    } else {
        pre.largest_read
    }
    &&& {
        ||| {
            &&& r matches Err(e) && link_failed(pre, post, LinkOp::Read, e)
            &&& post.incoming.is_suffix_of(pre.incoming)
        }
        ||| {
            &&& frame_view(r) == next_frame(pre.incoming)
            &&& post.incoming == after_frame(pre.incoming)
            &&& post.fault == pre.fault
        }
    }
}

/// The effect of writing one frame: a payload over the limit leaves the link untouched.
pub open spec fn write_frame_step(
    pre: LinkState,
    post: LinkState,
    tag: u8,
    payload: Seq<u8>,
    r: Result<(), IoError>,
) -> bool {
    if payload.len() > MAX_FRAME_LEN {
        r == Err::<(), IoError>(IoError::PayloadTooLong) && post == pre
    } else {
        write_all_step(pre, post, frame_bytes(tag, payload), r)
    }
}

/// Write one frame. The header goes out in a single piece, so that a failing link cannot leave a
/// partial header behind a complete write.
pub fn write_frame<W: ByteSink>(w: &mut W, tag: u8, payload: &[u8]) -> (r: Result<(), IoError>)
    ensures
        write_frame_step(old(w).state(), final(w).state(), tag, payload@, r),
{
    if payload.len() > MAX_FRAME_LEN as usize {
        return Err(IoError::PayloadTooLong);
    }
    let n: u32 = payload.len() as u32;
    let ghost pre = w.state();
    let ghost whole = frame_bytes(tag, payload@);
    let header: [u8; 5] = [
        tag,
        ((n / 0x100_0000) % 0x100) as u8,
        ((n / 0x1_0000) % 0x100) as u8,
        ((n / 0x100) % 0x100) as u8,
        (n % 0x100) as u8,
    ];
    proof {
        assert(header@ =~= whole.take(5));
        assert(payload@ =~= whole.skip(5));
    }
    match write_all(w, &header) {
        Ok(_) => {},
        Err(e) => {
            proof {
                let k = choose|k: int|
                    0 <= k < header@.len() && w.state().sent == pre.sent + #[trigger] header@.take(k);
                assert(header@.take(k) =~= whole.take(k));
            }
            return Err(e);
        },
    }
    let ghost mid = w.state();
    match write_all(w, payload) {
        Ok(_) => {
            proof {
                assert(pre.sent + header@ + payload@ =~= pre.sent + whole);
            }
            Ok(())
        },
        Err(e) => {
            proof {
                let k = choose|k: int|
                    0 <= k < payload@.len() && w.state().sent == mid.sent + #[trigger] payload@.take(k);
                assert(pre.sent + header@ + payload@.take(k) =~= pre.sent + whole.take(k + 5));
            }
            Err(e)
        },
    }
}

/// Read one frame as `(tag, payload)`. The payload is pulled in chunks of at most
/// [`READ_CHUNK_LEN`] bytes.
pub fn read_frame<R: ByteSource>(r: &mut R) -> (res: Result<(u8, Vec<u8>), IoError>)
    ensures
        read_frame_step(old(r).state(), final(r).state(), res),
{
    let ghost pre = r.state();
    let header: Vec<u8> = match read_exact(r, 5) {
        Ok(header) => header,
        Err(e) => {
            proof {
                assert(r.state().incoming.len() == 0 ==> r.state().incoming =~= Seq::<u8>::empty());
            }
            return Err(e);
        },
    };
    let tag: u8 = header[0];
    let len: u32 = header[1] as u32 * 0x100_0000 + header[2] as u32 * 0x1_0000 + header[3] as u32
        * 0x100 + header[4] as u32;
    let ghost body = r.state().incoming;
    proof {
        assert(pre.incoming =~= header@ + body);
        assert(len == declared_len(pre.incoming));
        assert(pre.incoming.skip(5) =~= body);
    }
    if len > MAX_FRAME_LEN {
        return Err(IoError::FrameTooLong);
    }
    let total: usize = len as usize;
    let mut payload: Vec<u8> = Vec::new();
    while payload.len() < total
        invariant
            pre == old(r).state(),
            payload@.len() <= total,
            total <= MAX_FRAME_LEN,
            body == payload@ + r.state().incoming,
            pre.incoming.len() == 5 + body.len(),
            body == pre.incoming.skip(5),
            total == declared_len(pre.incoming),
            reads_only(pre, r.state()),
            r.state().stalled == (pre.stalled || pre.flushed < pre.sent.len()),
            r.state().largest_read <= if READ_CHUNK_LEN > pre.largest_read {
                READ_CHUNK_LEN as nat
            } else {
                pre.largest_read
            },
            r.state().fault == pre.fault,
        decreases total - payload.len(),
    {
        let ghost mid = r.state();
        let ghost taken = payload@;
        let left: usize = total - payload.len();
        let want: usize = if left < READ_CHUNK_LEN {
            left
        } else {
            READ_CHUNK_LEN
        };
        match read_exact(r, want) {
            Ok(mut chunk) => {
                proof {
                    assert(body =~= (taken + chunk@) + r.state().incoming);
                }
                payload.append(&mut chunk);
            },
            Err(e) => {
                proof {
                    let now = r.state().incoming;
                    if now.is_suffix_of(mid.incoming) {
                        let gone = mid.incoming.len() - now.len();
                        assert forall|i: int| 0 <= i < now.len() implies #[trigger] now[i]
                            == pre.incoming[pre.incoming.len() - now.len() + i] by {
                            assert(now[i] == mid.incoming[gone + i]);
                            assert(mid.incoming[gone + i] == body[taken.len() + gone + i]);
                        }
                        assert(now =~= pre.incoming.subrange(
                            pre.incoming.len() - now.len(),
                            pre.incoming.len() as int,
                        ));
                    }
                    assert(now.len() == 0 ==> now =~= Seq::<u8>::empty());
                }
                return Err(e);
            },
        }
    }
    proof {
        assert(payload@ =~= pre.incoming.subrange(5, 5 + total));
        assert(r.state().incoming =~= pre.incoming.skip(5 + total));
    }
    Ok((tag, payload))
}

/// Four bytes and the number below 2^32 that they stand for determine each other.
pub proof fn lemma_be32_inverse(n: int)
    requires
        0 <= n < 0x1_0000_0000,
    ensures
        from_be32(be32(n)[0], be32(n)[1], be32(n)[2], be32(n)[3]) == n,
{
}

/// A frame that was written is the next frame to be read, whatever follows it, and reading it
/// leaves exactly what follows.
pub proof fn law_read_after_write(tag: u8, payload: Seq<u8>, rest: Seq<u8>)
    requires
        payload.len() <= MAX_FRAME_LEN,
    ensures
        next_frame(frame_bytes(tag, payload) + rest) == Ok::<(u8, Seq<u8>), IoError>((tag, payload)),
        after_frame(frame_bytes(tag, payload) + rest) == rest,
{
    let bytes = frame_bytes(tag, payload) + rest;
    lemma_be32_inverse(payload.len() as int);
    assert(declared_len(bytes) == payload.len());
    assert(bytes.subrange(5, 5 + payload.len() as int) =~= payload);
    assert(bytes.skip(5 + payload.len() as int) =~= rest);
}

/// The bytes of the number that four bytes stand for are those four.
proof fn lemma_from_be32_inverse(b0: u8, b1: u8, b2: u8, b3: u8)
    ensures
        be32(from_be32(b0, b1, b2, b3)) == seq![b0, b1, b2, b3],
{
    let n = from_be32(b0, b1, b2, b3);
    assert(n / 0x100_0000 == b0);
    assert(n / 0x1_0000 == b0 * 0x100 + b1);
    assert(n / 0x100 == b0 * 0x1_0000 + b1 * 0x100 + b2);
    assert((b0 * 0x100 + b1) % 0x100 == b1);
    assert((b0 * 0x1_0000 + b1 * 0x100 + b2) % 0x100 == b2);
    assert(n % 0x100 == b3);
    assert(be32(n) =~= seq![b0, b1, b2, b3]);
}

/// A frame that was read is the only one with its bytes: writing it again reproduces them.
pub proof fn law_write_after_read(bytes: Seq<u8>)
    requires
        next_frame(bytes) is Ok,
    ensures
        ({
            let (tag, payload) = next_frame(bytes)->Ok_0;
            frame_bytes(tag, payload) + after_frame(bytes) == bytes
        }),
{
    let (tag, payload) = next_frame(bytes)->Ok_0;
    lemma_from_be32_inverse(bytes[1], bytes[2], bytes[3], bytes[4]);
    let head = seq![tag] + be32(payload.len() as int);
    assert(head =~= bytes.take(5));
    assert(bytes.take(5) + payload + after_frame(bytes) =~= bytes);
}

/// A frame is laid out as its tag, the length of its payload in four bytes, each worth 256 times
/// the next one, and the payload.
pub proof fn law_frame_layout(tag: u8, payload: Seq<u8>)
    requires
        payload.len() < 0x1_0000_0000,
    ensures
        ({
            let bytes = frame_bytes(tag, payload);
            &&& bytes.len() == 5 + payload.len()
            &&& bytes[0] == tag
            &&& payload.len() == ((bytes[1] * 256 + bytes[2]) * 256 + bytes[3]) * 256 + bytes[4]
            &&& bytes.skip(5) == payload
        }),
{
    lemma_be32_inverse(payload.len() as int);
    assert(frame_bytes(tag, payload).skip(5) =~= payload);
}

/// What is read from a stream follows from its header alone: five bytes, the last four of which
/// are a length. A length over 16 MiB is refused whatever follows; else the frame is there exactly
/// if that many bytes follow, with the first byte as its tag and those bytes as its payload, and
/// what lies behind them is left.
pub proof fn law_header_decides(bytes: Seq<u8>)
    ensures
        bytes.len() < 5 ==> next_frame(bytes) == Err::<(u8, Seq<u8>), IoError>(
            IoError::UnexpectedEof,
        ) && after_frame(bytes).len() == 0,
        bytes.len() >= 5 ==> {
            let len = ((bytes[1] * 256 + bytes[2]) * 256 + bytes[3]) * 256 + bytes[4];
            &&& len > 16 * 1024 * 1024 ==> next_frame(bytes) == Err::<(u8, Seq<u8>), IoError>(
                IoError::FrameTooLong,
            ) && after_frame(bytes) == bytes.skip(5)
            &&& len <= 16 * 1024 * 1024 && bytes.len() < 5 + len ==> next_frame(bytes) == Err::<
                (u8, Seq<u8>),
                IoError,
            >(IoError::UnexpectedEof) && after_frame(bytes).len() == 0
            &&& len <= 16 * 1024 * 1024 && bytes.len() >= 5 + len ==> next_frame(bytes) == Ok::<
                (u8, Seq<u8>),
                IoError,
            >((bytes[0], bytes.subrange(5, 5 + len))) && after_frame(bytes) == bytes.skip(5 + len)
        },
{
}

/// A payload goes out as one frame if it is no longer than 16 MiB, and not at all if it is.
pub proof fn law_long_payloads_stay_back(
    pre: LinkState,
    post: LinkState,
    tag: u8,
    payload: Seq<u8>,
    r: Result<(), IoError>,
)
    requires
        write_frame_step(pre, post, tag, payload, r),
    ensures
        payload.len() > 16 * 1024 * 1024 ==> r is Err && post == pre,
        payload.len() <= 16 * 1024 * 1024 && r is Ok ==> post.sent == pre.sent + frame_bytes(
            tag,
            payload,
        ),
{
}

/// However long a frame says it is, no more than 64 KiB are asked for at a time.
pub proof fn law_reads_are_bounded(
    pre: LinkState,
    post: LinkState,
    r: Result<(u8, Vec<u8>), IoError>,
)
    requires
        read_frame_step(pre, post, r),
    ensures
        post.largest_read <= 64 * 1024 || post.largest_read <= pre.largest_read,
        post.sent == pre.sent,
{
}

} // verus!
