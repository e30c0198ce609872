//! Byte links: the reading and writing ends that frames travel over.
//!
//! A link is modelled by a [`LinkState`]. The exec side of the two traits is what a socket, a USB
//! endpoint pair or an in-memory buffer offers: a read that may come back short, a write that may
//! take only some of the bytes, and a flush.

use vstd::prelude::*;
use crate::protocol::messages::Frame;

verus! {

/// Why an operation on a link failed.
#[derive(Debug, Clone, PartialEq, Eq)]
pub enum IoError {
    /// The stream ended before the bytes that were asked for had arrived.
    UnexpectedEof,
    /// The bytes that arrived are not valid.
    InvalidData,
    /// The caller's argument cannot be sent.
    InvalidInput,
    /// The link took none of the bytes it was given.
    WriteZero,
    /// The peer is gone.
    BrokenPipe,
    /// The peer reset the connection.
    ConnectionReset,
    /// The operation ran into its time limit.
    TimedOut,
    /// A payload is longer than a frame may carry.
    PayloadTooLong,
    /// A frame announces a payload that is longer than it may be.
    FrameTooLong,
    /// This frame came where the reply to a handshake was due.
    UnexpectedReply(Frame),
    /// This frame came where the offer of a handshake was due.
    UnexpectedOffer(Frame),
    /// What was looked for is not there.
    NotFound,
    /// The other end cannot do what was asked of it.
    Unsupported,
    /// Any other failure of the underlying device.
    Other,
}

/// What is asked of a link.
pub enum LinkOp {
    Read,
    Write,
    Flush,
}

/// What can be said of a link at one moment.
#[verifier::ext_equal]
pub struct LinkState {
    /// The bytes that reads will still hand out before the end of the stream.
    pub incoming: Seq<u8>,
    /// Every byte that a write has taken so far.
    pub sent: Seq<u8>,
    /// How many of the sent bytes have been flushed; a write may push bytes out on its own.
    pub flushed: nat,
    /// Whether a read was ever issued while sent bytes were still unflushed.
    pub stalled: bool,
    /// The largest number of bytes that one read was asked for.
    pub largest_read: nat,
    /// The latest operation that failed, if any did, and its error. A write that takes nothing has
    /// failed.
    pub fault: Option<(LinkOp, IoError)>,
    /// Whether the link never fails on its own.
    pub faultless: bool,
}

impl LinkState {
    /// Whether every byte that was sent has been flushed.
    pub open spec fn all_flushed(self) -> bool {
        self.flushed == self.sent.len()
    }
}

/// Whether `e` is a failure of the link itself, raised by the operation on the way from `pre` to
/// `post`.
pub open spec fn link_failed(pre: LinkState, post: LinkState, op: LinkOp, e: IoError) -> bool {
    !pre.faultless && post.fault == Some((op, e))
}

/// Whether `e` is a failure of the link itself, raised by any operation on the way from `pre` to
/// `post`.
pub open spec fn link_failed_somehow(pre: LinkState, post: LinkState, e: IoError) -> bool {
    !pre.faultless && post.fault is Some && post.fault->Some_0.1 == e
}

/// What stays as it was, whatever is read: the sending side, and how reliable the link is.
pub open spec fn reads_only(pre: LinkState, post: LinkState) -> bool {
    &&& post.sent == pre.sent
    &&& post.flushed == pre.flushed
    &&& post.faultless == pre.faultless
}

/// What stays as it was, whatever is written: the receiving side, and how reliable the link is.
pub open spec fn writes_only(pre: LinkState, post: LinkState) -> bool {
    &&& post.incoming == pre.incoming
    &&& post.stalled == pre.stalled
    &&& post.largest_read == pre.largest_read
    &&& post.faultless == pre.faultless
}

/// The effect of asking for up to `max` bytes once.
pub open spec fn read_step(
    pre: LinkState,
    post: LinkState,
    max: nat,
    r: Result<Vec<u8>, IoError>,
) -> bool {
    &&& reads_only(pre, post)
    &&& post.stalled == (pre.stalled || pre.flushed < pre.sent.len())
    &&& post.largest_read == if max > pre.largest_read { max } else { pre.largest_read }
    &&& match r {
        Ok(v) => {
            &&& v@.len() <= max
            &&& pre.incoming == v@ + post.incoming
            &&& (v@.len() == 0 && max > 0 ==> pre.incoming.len() == 0)
            &&& post.fault == pre.fault
        },
        Err(e) => link_failed(pre, post, LinkOp::Read, e) && post.incoming == pre.incoming,
    }
}

/// The effect of offering `bytes` once.
pub open spec fn write_step(
    pre: LinkState,
    post: LinkState,
    bytes: Seq<u8>,
    r: Result<usize, IoError>,
) -> bool {
    &&& writes_only(pre, post)
    &&& pre.flushed <= post.flushed
    &&& match r {
        Ok(n) => {
            &&& n <= bytes.len()
            &&& post.sent == pre.sent + bytes.take(n as int)
            &&& if n == 0 && bytes.len() > 0 {
                link_failed(pre, post, LinkOp::Write, IoError::WriteZero)
            } else {
                post.fault == pre.fault
            }
        },
        Err(e) => link_failed(pre, post, LinkOp::Write, e) && post.sent == pre.sent,
    }
}

/// The effect of a flush.
pub open spec fn flush_step(pre: LinkState, post: LinkState, r: Result<(), IoError>) -> bool {
    &&& writes_only(pre, post)
    &&& post.sent == pre.sent
    &&& match r {
        Ok(_) => post.flushed == pre.sent.len() && post.fault == pre.fault,
        Err(e) => link_failed(pre, post, LinkOp::Flush, e) && pre.flushed <= post.flushed,
    }
}

/// Anything whose state is a [`LinkState`].
pub trait Link {
    /// The state of the link.
    open spec fn state(&self) -> LinkState {
        arbitrary()
    }
}

/// The receiving end of a link.
pub trait ByteSource: Link {
    /// Hand out up to `max` of the bytes that come next; an empty result for a `max` above zero
    /// means that the stream has ended.
    fn read(&mut self, max: usize) -> (r: Result<Vec<u8>, IoError>)
        ensures
            read_step(old(self).state(), final(self).state(), max as nat, r),
    ;
}

/// The sending end of a link.
pub trait ByteSink: Link {
    /// Take some of `bytes` from the front; the result says how many.
    fn write(&mut self, bytes: &[u8]) -> (r: Result<usize, IoError>)
        ensures
            write_step(old(self).state(), final(self).state(), bytes@, r),
    ;

    /// Push everything that was taken out to the peer.
    fn flush(&mut self) -> (r: Result<(), IoError>)
        ensures
            flush_step(old(self).state(), final(self).state(), r),
    ;
}

/// A duplex link: frames are sent and received over it.
pub trait Transport: ByteSource + ByteSink {

}

impl<T: ByteSource + ByteSink> Transport for T {

}

/// The effect of reading exactly `n` bytes: they are the next `n`, or the stream held fewer and
/// is now used up, or the link failed part of the way through.
pub open spec fn read_exact_step(
    pre: LinkState,
    post: LinkState,
    n: nat,
    r: Result<Vec<u8>, IoError>,
) -> bool {
    &&& reads_only(pre, post)
    &&& post.stalled == (pre.stalled || (n > 0 && pre.flushed < pre.sent.len()))
    &&& post.largest_read == if n > pre.largest_read { n } else { pre.largest_read }
    &&& match r {
        Ok(v) => {
            &&& v@.len() == n
            &&& pre.incoming == v@ + post.incoming
            &&& post.fault == pre.fault
        },
        Err(e) => {
            ||| {
                &&& link_failed(pre, post, LinkOp::Read, e)
                &&& post.incoming.is_suffix_of(pre.incoming)
            }
            ||| {
                &&& e == IoError::UnexpectedEof
                &&& pre.incoming.len() < n
                &&& post.incoming.len() == 0
                &&& post.fault == pre.fault
            }
        },
    }
}

/// Read exactly `n` bytes, asking again after every short read.
pub fn read_exact<R: ByteSource>(r: &mut R, n: usize) -> (res: Result<Vec<u8>, IoError>)
    ensures
        read_exact_step(old(r).state(), final(r).state(), n as nat, res),
{
    let ghost pre = r.state();
    let mut got: Vec<u8> = Vec::new();
    while got.len() < n
        invariant
            pre == old(r).state(),
            got@.len() <= n,
            reads_only(pre, r.state()),
            pre.incoming == got@ + r.state().incoming,
            r.state().fault == pre.fault,
            got@.len() == 0 ==> r.state() == pre,
            got@.len() > 0 ==> r.state().stalled == (pre.stalled || pre.flushed < pre.sent.len()),
            got@.len() > 0 ==> r.state().largest_read == if n > pre.largest_read {
                n as nat
            } else {
                pre.largest_read
            },
        decreases n - got.len(),
    {
        let ghost mid = r.state();
        let ghost taken = got@;
        let want: usize = n - got.len();
        match r.read(want) {
            Ok(mut part) => {
                if part.len() == 0 {
                    return Err(IoError::UnexpectedEof);
                }
                proof {
                    assert(pre.incoming =~= (taken + part@) + r.state().incoming);
                }
                got.append(&mut part);
            },
            Err(e) => {
                proof {
                    assert(pre.incoming.skip(taken.len() as int) =~= mid.incoming);
                }
                return Err(e);
            },
        }
    }
    Ok(got)
}

/// The effect of writing all of `bytes`: every one of them was taken, or the link failed, or
/// refused to go on, after some of them.
pub open spec fn write_all_step(
    pre: LinkState,
    post: LinkState,
    bytes: Seq<u8>,
    r: Result<(), IoError>,
) -> bool {
    &&& writes_only(pre, post)
    &&& pre.flushed <= post.flushed
    &&& match r {
        Ok(_) => post.sent == pre.sent + bytes && post.fault == pre.fault,
        Err(e) => {
            &&& link_failed(pre, post, LinkOp::Write, e)
            &&& exists|k: int| 0 <= k < bytes.len() && post.sent == pre.sent + #[trigger] bytes.take(k)
        },
    }
}

/// Whether nothing but a part of `bytes`, from the front, was sent on the way from `pre` to `post`.
pub open spec fn partly_sent(pre: LinkState, post: LinkState, bytes: Seq<u8>) -> bool {
    &&& pre.sent.is_prefix_of(post.sent)
    &&& post.sent.is_prefix_of(pre.sent + bytes)
}

/// Write all of `bytes`, offering what is left after every short write.
pub fn write_all<W: ByteSink>(w: &mut W, bytes: &[u8]) -> (res: Result<(), IoError>)
    ensures
        write_all_step(old(w).state(), final(w).state(), bytes@, res),
{
    let ghost pre = w.state();
    let mut done: usize = 0;
    proof {
        assert(pre.sent + bytes@.take(0) =~= pre.sent);
    }
    while done < bytes.len()
        invariant
            pre == old(w).state(),
            done <= bytes@.len(),
            writes_only(pre, w.state()),
            pre.flushed <= w.state().flushed,
            w.state().sent == pre.sent + bytes@.take(done as int),
            w.state().fault == pre.fault,
        decreases bytes.len() - done,
    {
        let rest = vstd::slice::slice_subrange(bytes, done, bytes.len());
        match w.write(rest) {
            Ok(n) => {
                if n == 0 {
                    proof {
                        assert(rest@.take(0) =~= Seq::<u8>::empty());
                        assert(w.state().sent =~= pre.sent + bytes@.take(done as int));
                    }
                    return Err(IoError::WriteZero);
                }
                proof {
                    assert((pre.sent + bytes@.take(done as int)) + rest@.take(n as int)
                        =~= pre.sent + bytes@.take(done + n));
                }
                done = done + n;
            },
            Err(e) => {
                return Err(e);
            },
        }
    }
    proof {
        assert(bytes@.take(done as int) =~= bytes@);
    }
    Ok(())
}

/// A byte buffer is a sending end that takes everything.
impl Link for Vec<u8> {
    open spec fn state(&self) -> LinkState {
        LinkState {
            incoming: Seq::empty(),
            sent: self@,
            flushed: self@.len(),
            stalled: false,
            largest_read: 0,
            fault: None,
            faultless: true,
        }
    }
}

impl ByteSink for Vec<u8> {
    fn write(&mut self, bytes: &[u8]) -> (r: Result<usize, IoError>) {
        self.extend_from_slice(bytes);
        proof {
            assert(self@ =~= old(self)@ + bytes@.take(bytes@.len() as int));
        }
        Ok(bytes.len())
    }

    fn flush(&mut self) -> (r: Result<(), IoError>) {
        Ok(())
    }
}

/// A receiving end over bytes in memory.
pub struct ByteCursor {
    bytes: Vec<u8>,
    pos: usize,
    largest_read: usize,
}

impl ByteCursor {
    #[verifier::type_invariant]
    spec fn inv(self) -> bool {
        self.pos <= self.bytes@.len()
    }

    /// A source that hands out `bytes` from the front and then ends.
    pub fn new(bytes: Vec<u8>) -> (cursor: Self)
        ensures
            cursor.state().incoming == bytes@,
            cursor.state().all_flushed(),
            !cursor.state().stalled,
            cursor.state().largest_read == 0,
            cursor.state().fault is None,
            cursor.state().faultless,
    {
        proof {
            assert(bytes@.skip(0) =~= bytes@);
        }
        ByteCursor { bytes, pos: 0, largest_read: 0 }
    }

    /// The largest number of bytes that one read has asked for.
    pub fn largest_read(&self) -> (n: usize)
        ensures
            n == self.state().largest_read,
    {
        self.largest_read
    }
}

impl Link for ByteCursor {
    closed spec fn state(&self) -> LinkState {
        LinkState {
            incoming: self.bytes@.skip(self.pos as int),
            sent: Seq::empty(),
            flushed: 0,
            stalled: false,
            largest_read: self.largest_read as nat,
            fault: None,
            faultless: true,
        }
    }
}

impl ByteSource for ByteCursor {
    fn read(&mut self, max: usize) -> (r: Result<Vec<u8>, IoError>) {
        proof {
            use_type_invariant(&*self);
        }
        let left: usize = self.bytes.len() - self.pos;
        let n: usize = if max < left {
            max
        } else {
            left
        };
        let end: usize = self.pos + n;
        let part = vstd::slice::slice_to_vec(
            vstd::slice::slice_subrange(self.bytes.as_slice(), self.pos, end),
        );
        self.pos = end;
        if max > self.largest_read {
            self.largest_read = max;
        }
        proof {
            assert(old(self).state().incoming =~= part@ + self.state().incoming);
        }
        Ok(part)
    }
}

/// A duplex link in memory: reads come from a fixed script, writes are kept.
pub struct MemoryLink {
    input: ByteCursor,
    output: Vec<u8>,
    flushed: usize,
    stalled: bool,
}

impl MemoryLink {
    /// A link on which the peer sends `incoming` and then closes.
    pub fn new(incoming: Vec<u8>) -> (link: Self)
        ensures
            link.state().incoming == incoming@,
            link.state().sent == Seq::<u8>::empty(),
            link.state().all_flushed(),
            !link.state().stalled,
            link.state().largest_read == 0,
            link.state().fault is None,
            link.state().faultless,
    {
        MemoryLink { input: ByteCursor::new(incoming), output: Vec::new(), flushed: 0, stalled: false }
    }

    /// Every byte that was written to the link.
    pub fn sent(&self) -> (bytes: &Vec<u8>)
        ensures
            bytes@ == self.state().sent,
    {
        &self.output
    }

    /// How many of the written bytes have been flushed.
    pub fn flushed(&self) -> (n: usize)
        ensures
            n == self.state().flushed,
    {
        self.flushed
    }

    /// Whether a read was issued while written bytes were still unflushed.
    pub fn stalled(&self) -> (b: bool)
        ensures
            b == self.state().stalled,
    {
        self.stalled
    }
}

impl Link for MemoryLink {
    closed spec fn state(&self) -> LinkState {
        LinkState {
            incoming: self.input.state().incoming,
            sent: self.output@,
            flushed: self.flushed as nat,
            stalled: self.stalled,
            largest_read: self.input.state().largest_read,
            fault: None,
            faultless: true,
        }
    }
}

impl ByteSource for MemoryLink {
    fn read(&mut self, max: usize) -> (r: Result<Vec<u8>, IoError>) {
        if self.flushed < self.output.len() {
            self.stalled = true;
        }
        self.input.read(max)
    }
}

impl ByteSink for MemoryLink {
    fn write(&mut self, bytes: &[u8]) -> (r: Result<usize, IoError>) {
        self.output.write(bytes)
    }

    fn flush(&mut self) -> (r: Result<(), IoError>) {
        self.flushed = self.output.len();
        Ok(())
    }
}

} // verus!
