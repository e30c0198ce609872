//! A decoder behind an input pacer: the receive loop drives the pacer by driving this decoder.

use vstd::prelude::*;
use crate::count::{add_count, capped_count};
use crate::protocol::messages::VideoCodec;
use crate::protocol::nal::CodecConfig;
use super::decode::{DecodeError, DecoderInput, VideoDecoder};
use super::decode::DecoderCall;
use super::pacing::{Admission, InputPacer};
use super::pacing::{paced, PacerView};

verus! {

/// A decoder that can say how much waits in it, and that can show what it has decoded without being
/// given more.
pub trait QueueingDecoder: VideoDecoder {
    /// How many access units are inside.
    open spec fn depth(&self) -> nat {
        arbitrary()
    }

    /// What the calls that submitted nothing have answered so far.
    open spec fn pumps(&self) -> Seq<Result<(), DecodeError>> {
        arbitrary()
    }

    /// How many access units are inside.
    fn in_flight(&self) -> (n: usize)
        ensures
            n == self.depth(),
    ;

    /// Show what is decoded, without submitting anything.
    fn pump(&mut self) -> (r: Result<(), DecodeError>)
        ensures
            final(self).calls() == old(self).calls(),
            final(self).pumps() == old(self).pumps().push(r),
    ;
}

/// What takes requests for a keyframe to the host.
pub trait KeyframeRequests {
    /// How many were made so far.
    open spec fn requested(&self) -> nat {
        arbitrary()
    }

    /// Ask for a keyframe.
    fn request(&mut self)
        ensures
            final(self).requested() == old(self).requested() + 1,
    ;
}

/// A list counts the requests by its length.
impl KeyframeRequests for Vec<()> {
    open spec fn requested(&self) -> nat {
        self@.len()
    }

    fn request(&mut self) {
        self.push(());
    }
}

/// A decoder that is given only what the pacer feeds it.
pub struct PacedDecoder<D: QueueingDecoder, Q: KeyframeRequests> {
    inner: D,
    pacer: InputPacer,
    requests: Q,
    dropped: u64,
    made: Ghost<Seq<DecoderCall>>,
}

impl<D: QueueingDecoder, Q: KeyframeRequests> PacedDecoder<D, Q> {
    /// The decoder behind the pacer.
    pub closed spec fn inner(&self) -> D {
        self.inner
    }

    /// The pacer.
    pub closed spec fn pacer(&self) -> PacerView {
        self.pacer@
    }

    /// The requests for keyframes.
    pub closed spec fn requests(&self) -> Q {
        self.requests
    }

    /// How many access units were dropped.
    pub closed spec fn dropped_count(&self) -> u64 {
        self.dropped
    }

    /// A decoder behind a fresh pacer, which feeds while fewer than `max_in_flight` access units
    /// are inside.
    pub fn new(inner: D, requests: Q, max_in_flight: usize) -> (r: Self)
        ensures
            r.inner() == inner,
            r.requests() == requests,
            r.dropped_count() == 0,
            !r.pacer().dropping,
            r.pacer().max_in_flight == if max_in_flight == 0 {
                1
            } else {
                max_in_flight as nat
            },
            r.calls() == Seq::<DecoderCall>::empty(),
    {
        PacedDecoder {
            inner,
            pacer: InputPacer::new(max_in_flight),
            requests,
            dropped: 0,
            made: Ghost(Seq::empty()),
        }
    }

    /// How many access units were dropped.
    pub fn dropped(&self) -> (n: u64)
        ensures
            n == self.dropped_count(),
    {
        self.dropped
    }

    /// Give the decoder and the requests back.
    pub fn into_parts(self) -> (r: (D, Q))
        ensures
            r.0 == self.inner(),
            r.1 == self.requests(),
    {
        (self.inner, self.requests)
    }
}

impl<D: QueueingDecoder, Q: KeyframeRequests> VideoDecoder for PacedDecoder<D, Q> {
    closed spec fn calls(&self) -> Seq<DecoderCall> {
        self.made@
    }

    /// Configure the decoder; the pacer has no say in that.
    fn configure(&mut self, codec: VideoCodec, config: &CodecConfig) -> (r: Result<
        (),
        DecodeError,
    >)
        ensures
            final(self).inner().calls() == old(self).inner().calls().push(
                DecoderCall::Configure { codec, config: config@, answer: r },
            ),
            final(self).pacer() == old(self).pacer(),
            final(self).requests() == old(self).requests(),
            final(self).dropped_count() == old(self).dropped_count(),
    {
        let r = self.inner.configure(codec, config);
        self.made = Ghost(
            self.made@.push(DecoderCall::Configure { codec, config: config@, answer: r }),
        );
        r
    }

    /// Feed an access unit to the decoder or drop it, as the pacer decides from how much waits in
    /// the decoder. The first that is dropped asks the host for a keyframe; whenever one is dropped
    /// the decoder still shows what it has.
    fn decode(&mut self, input: &DecoderInput) -> (r: Result<(), DecodeError>)
        ensures
            ({
                let (admission, after) = paced(
                    old(self).pacer(),
                    input@.keyframe,
                    old(self).inner().depth(),
                );
                &&& final(self).pacer() == after
                &&& match admission {
                    Admission::Feed => {
                        &&& final(self).inner().calls() == old(self).inner().calls().push(
                            DecoderCall::Decode { input: input@, answer: r },
                        )
                        &&& final(self).requests() == old(self).requests()
                        &&& final(self).dropped_count() == old(self).dropped_count()
                    },
                    Admission::Drop => {
                        &&& final(self).inner().calls() == old(self).inner().calls()
                        &&& final(self).inner().pumps() == old(self).inner().pumps().push(r)
                        &&& final(self).requests() == old(self).requests()
                        &&& final(self).dropped_count() == capped_count(
                            old(self).dropped_count(),
                            1,
                        )
                    },
                    Admission::DropAndRequestKeyframe => {
                        &&& final(self).inner().calls() == old(self).inner().calls()
                        &&& final(self).inner().pumps() == old(self).inner().pumps().push(r)
                        &&& final(self).requests().requested() == old(self).requests().requested()
                            + 1
                        &&& final(self).dropped_count() == capped_count(
                            old(self).dropped_count(),
                            1,
                        )
                    },
                }
            }),
    {
        let in_flight: usize = self.inner.in_flight();
        let r = match self.pacer.admits(input.keyframe, in_flight) {
            Admission::Feed => self.inner.decode(input),
            Admission::Drop => {
                self.dropped = add_count(self.dropped, 1);
                self.inner.pump()
            },
            Admission::DropAndRequestKeyframe => {
                self.dropped = add_count(self.dropped, 1);
                self.requests.request();
                self.inner.pump()
            },
        };
        self.made = Ghost(self.made@.push(DecoderCall::Decode { input: input@, answer: r }));
        r
    }
}

/// What waits in a paced decoder waits in the one behind the pacer.
impl<D: QueueingDecoder, Q: KeyframeRequests> QueueingDecoder for PacedDecoder<D, Q> {
    closed spec fn depth(&self) -> nat {
        self.inner.depth()
    }

    closed spec fn pumps(&self) -> Seq<Result<(), DecodeError>> {
        self.inner.pumps()
    }

    fn in_flight(&self) -> (n: usize)
        ensures
            n == self.inner().depth(),
    {
        self.inner.in_flight()
    }

    fn pump(&mut self) -> (r: Result<(), DecodeError>)
        ensures
            final(self).inner().calls() == old(self).inner().calls(),
            final(self).inner().pumps() == old(self).inner().pumps().push(r),
            final(self).pacer() == old(self).pacer(),
            final(self).requests() == old(self).requests(),
            final(self).dropped_count() == old(self).dropped_count(),
    {
        self.inner.pump()
    }
}

} // verus!
