//! Driving a video decoder from protocol frames.

use vstd::prelude::*;
use crate::count::{add_count, capped_count};
use crate::protocol::messages::{Frame, VideoCodec};
use crate::protocol::messages::FrameView;
use crate::protocol::nal::{extract_codec_config, to_annex_b_access_unit};
use crate::protocol::nal::{AccessUnitError, CodecConfig};
use crate::protocol::nal::{access_unit_of, codec_config_of, config_view, CodecConfigView};
use crate::protocol::nal::{law_config_is_the_first_of_each, law_payload_reaches_the_decoder};

verus! {

/// One access unit for the decoder.
#[derive(Debug, Clone, PartialEq, Eq)]
pub struct DecoderInput {
    /// Presentation timestamp in microseconds.
    pub pts_us: u64,
    /// Whether this access unit is a keyframe.
    pub keyframe: bool,
    /// The decoder-ready Annex-B access unit.
    pub annex_b: Vec<u8>,
}

/// A [`DecoderInput`] by its values.
#[verifier::ext_equal]
pub struct InputView {
    pub pts_us: u64,
    pub keyframe: bool,
    pub annex_b: Seq<u8>,
}

impl View for DecoderInput {
    type V = InputView;

    open spec fn view(&self) -> InputView {
        InputView { pts_us: self.pts_us, keyframe: self.keyframe, annex_b: self.annex_b@ }
    }
}

/// Why driving the decoder failed.
#[derive(Debug, Clone, PartialEq, Eq)]
pub enum DecodeError {
    /// A video frame arrived before any usable configuration.
    NoConfig,
    /// The video payload could not be turned into an access unit.
    AccessUnit(AccessUnitError),
    /// The decoder itself reported an error.
    Adapter(String),
}

/// One call of a decoder, and what it answered.
pub enum DecoderCall {
    Configure { codec: VideoCodec, config: CodecConfigView, answer: Result<(), DecodeError> },
    Decode { input: InputView, answer: Result<(), DecodeError> },
}

/// The decode seam.
pub trait VideoDecoder {
    /// Every call that was made so far.
    open spec fn calls(&self) -> Seq<DecoderCall> {
        arbitrary()
    }

    /// Configure the decoder with the codec and its parameter sets. Called before the first access
    /// unit, and again if the configuration changes.
    fn configure(&mut self, codec: VideoCodec, config: &CodecConfig) -> (r: Result<
        (),
        DecodeError,
    >)
        ensures
            final(self).calls() == old(self).calls().push(
                DecoderCall::Configure { codec, config: config@, answer: r },
            ),
    ;

    /// Submit one access unit for decoding.
    fn decode(&mut self, input: &DecoderInput) -> (r: Result<(), DecodeError>)
        ensures
            final(self).calls() == old(self).calls().push(
                DecoderCall::Decode { input: input@, answer: r },
            ),
    ;
}

/// Drives a [`VideoDecoder`] from a stream of frames.
///
/// A `VideoConfig` configures the decoder whenever it brings something new: the host sends it
/// before every keyframe, and applying it again would restart the decoder. A `Video` becomes an
/// access unit, with the known parameter sets in front of a bare keyframe. A keyframe that carries
/// its own parameter sets configures the decoder if nothing has before.
#[derive(Debug, Clone, PartialEq, Eq)]
pub struct DecodeSession {
    config: Option<CodecConfig>,
    codec: VideoCodec,
    decoded: u64,
    keyframes: u64,
    configured: bool,
}

/// A [`DecodeSession`] by its values.
#[verifier::ext_equal]
pub struct DecodeView {
    /// The configuration in force.
    pub config: Option<CodecConfigView>,
    /// The codec of the latest `VideoConfig` that brought something new.
    pub codec: VideoCodec,
    /// Access units submitted.
    pub decoded: u64,
    /// Keyframes submitted.
    pub keyframes: u64,
    /// Whether the decoder has been configured.
    pub configured: bool,
}

impl View for DecodeSession {
    type V = DecodeView;

    closed spec fn view(&self) -> DecodeView {
        DecodeView {
            config: config_view(self.config),
            codec: self.codec,
            decoded: self.decoded,
            keyframes: self.keyframes,
            configured: self.configured,
        }
    }
}

/// A session in which a configuration has just been applied.
pub open spec fn with_config(s: DecodeView, codec: VideoCodec, config: CodecConfigView) -> DecodeView {
    DecodeView { config: Some(config), codec, configured: true, ..s }
}

/// The effect of a `VideoConfig`, given the calls it made.
pub open spec fn config_fed(
    pre: DecodeView,
    post: DecodeView,
    codec: VideoCodec,
    sps_pps: Seq<u8>,
    calls: Seq<DecoderCall>,
    r: Result<(), DecodeError>,
) -> bool {
    match codec_config_of(sps_pps) {
        Some(config) => if pre.config == Some(config) {
            calls.len() == 0 && post == pre && r is Ok
        } else {
            &&& calls == seq![DecoderCall::Configure { codec, config, answer: r }]
            &&& match r {
                Ok(_) => post == with_config(pre, codec, config),
                Err(_) => post == (DecodeView { codec, ..pre }),
            }
        },
        None => calls.len() == 0 && post == pre && r is Ok,
    }
}

/// The effect of an access unit on a session that knows its configuration, or knows that there is
/// none.
pub open spec fn unit_fed(
    pre: DecodeView,
    post: DecodeView,
    pts_us: u64,
    keyframe: bool,
    nal: Seq<u8>,
    calls: Seq<DecoderCall>,
    r: Result<(), DecodeError>,
) -> bool {
    if !pre.configured {
        calls.len() == 0 && post == pre && r == Err::<(), DecodeError>(DecodeError::NoConfig)
    } else {
        match access_unit_of(nal, keyframe, pre.config) {
            Err(e) => calls.len() == 0 && post == pre && r == Err::<(), DecodeError>(
                DecodeError::AccessUnit(e),
            ),
            Ok(annex_b) => {
                &&& calls == seq![
                    DecoderCall::Decode {
                        input: InputView { pts_us, keyframe, annex_b },
                        answer: r,
                    },
                ]
                &&& match r {
                    Ok(_) => post == (DecodeView {
                        decoded: capped_count(pre.decoded, 1),
                        keyframes: if keyframe {
                            capped_count(pre.keyframes, 1)
                        } else {
                            pre.keyframes
                        },
                        ..pre
                    }),
                    Err(_) => post == pre,
                }
            },
        }
    }
}

/// The effect of a `Video`, given the calls it made: a first keyframe that carries its parameter
/// sets configures the decoder before its access unit is submitted.
pub open spec fn video_fed(
    pre: DecodeView,
    post: DecodeView,
    pts_us: u64,
    keyframe: bool,
    nal: Seq<u8>,
    calls: Seq<DecoderCall>,
    r: Result<(), DecodeError>,
) -> bool {
    if pre.config is None && keyframe && codec_config_of(nal) is Some {
        let config = codec_config_of(nal)->Some_0;
        &&& calls.len() > 0
        &&& calls[0] matches DecoderCall::Configure { codec, config: c, answer }
        &&& codec == pre.codec
        &&& c == config
        &&& match answer {
            Ok(_) => unit_fed(
                with_config(pre, pre.codec, config),
                post,
                pts_us,
                keyframe,
                nal,
                calls.skip(1),
                r,
            ),
            Err(_) => calls.len() == 1 && post == pre && r == answer,
        }
    } else {
        unit_fed(pre, post, pts_us, keyframe, nal, calls, r)
    }
}

/// The effect of one frame, given the calls it made. Frames that are no video are ignored.
pub open spec fn fed(
    pre: DecodeView,
    post: DecodeView,
    frame: FrameView,
    calls: Seq<DecoderCall>,
    r: Result<(), DecodeError>,
) -> bool {
    match frame {
        FrameView::VideoConfig { codec, sps_pps } => config_fed(pre, post, codec, sps_pps, calls, r),
        FrameView::Video { pts_us, keyframe, nal } => video_fed(
            pre,
            post,
            pts_us,
            keyframe,
            nal,
            calls,
            r,
        ),
        _ => calls.len() == 0 && post == pre && r is Ok,
    }
}

impl DecodeSession {
    /// A fresh session with no configuration seen yet.
    pub fn new() -> (s: Self)
        ensures
            s@ == (DecodeView {
                config: None,
                codec: VideoCodec::H264,
                decoded: 0,
                keyframes: 0,
                configured: false,
            }),
    {
        DecodeSession {
            config: None,
            codec: VideoCodec::H264,
            decoded: 0,
            keyframes: 0,
            configured: false,
        }
    }

    /// Whether the decoder has been configured.
    pub fn configured(&self) -> (r: bool)
        ensures
            r == self@.configured,
    {
        self.configured
    }

    /// Number of access units submitted so far.
    pub fn decoded_count(&self) -> (n: u64)
        ensures
            n == self@.decoded,
    {
        self.decoded
    }

    /// Number of keyframes submitted so far.
    pub fn keyframe_count(&self) -> (n: u64)
        ensures
            n == self@.keyframes,
    {
        self.keyframes
    }

    /// Feed one frame, driving `decoder` as needed.
    pub fn feed<D: VideoDecoder>(&mut self, frame: &Frame, decoder: &mut D) -> (r: Result<
        (),
        DecodeError,
    >)
        ensures
            old(decoder).calls().is_prefix_of(final(decoder).calls()),
            fed(
                old(self)@,
                final(self)@,
                frame@,
                final(decoder).calls().skip(old(decoder).calls().len() as int),
                r,
            ),
    {
        let ghost before = decoder.calls();
        proof {
            assert(before.skip(before.len() as int) =~= Seq::<DecoderCall>::empty());
        }
        match frame {
            Frame::VideoConfig { codec, sps_pps } => {
                if let Some(config) = extract_codec_config(sps_pps.as_slice()) {
                    let same: bool = match &self.config {
                        Some(known) => known.same_as(&config),
                        None => false,
                    };
                    if !same {
                        self.codec = *codec;
                        let r = decoder.configure(*codec, &config);
                        proof {
                            assert(decoder.calls().skip(before.len() as int) =~= seq![
                                DecoderCall::Configure { codec: *codec, config: config@, answer: r },
                            ]);
                        }
                        if r.is_ok() {
                            self.config = Some(config);
                            self.configured = true;
                        }
                        return r;
                    }
                }
                Ok(())
            },
            Frame::Video { pts_us, keyframe, nal } => self.feed_video(
                *pts_us,
                *keyframe,
                nal.as_slice(),
                decoder,
            ),
            _ => Ok(()),
        }
    }

    fn feed_video<D: VideoDecoder>(
        &mut self,
        pts_us: u64,
        keyframe: bool,
        nal: &[u8],
        decoder: &mut D,
    ) -> (r: Result<(), DecodeError>)
        ensures
            old(decoder).calls().is_prefix_of(final(decoder).calls()),
            video_fed(
                old(self)@,
                final(self)@,
                pts_us,
                keyframe,
                nal@,
                final(decoder).calls().skip(old(decoder).calls().len() as int),
                r,
            ),
    {
        let ghost before = decoder.calls();
        if self.config.is_none() && keyframe {
            if let Some(config) = extract_codec_config(nal) {
                let r = decoder.configure(self.codec, &config);
                proof {
                    assert(decoder.calls().skip(before.len() as int) =~= seq![
                        DecoderCall::Configure {
                            codec: self.codec,
                            config: config@,
                            answer: r,
                        },
                    ]);
                }
                if r.is_err() {
                    return r;
                }
                self.config = Some(config);
                self.configured = true;
            }
        }
        let ghost mid = decoder.calls();
        let ghost now = self@;
        proof {
            assert(mid.skip(mid.len() as int) =~= Seq::<DecoderCall>::empty());
            assert(mid.skip(before.len() as int).skip(mid.len() - before.len()) =~= Seq::<
                DecoderCall,
            >::empty());
        }
        if !self.configured {
            return Err(DecodeError::NoConfig);
        }
        let annex_b: Vec<u8> = match to_annex_b_access_unit(nal, keyframe, self.config.as_ref()) {
            Ok(annex_b) => annex_b,
            Err(e) => {
                return Err(DecodeError::AccessUnit(e));
            },
        };
        let input = DecoderInput { pts_us, keyframe, annex_b };
        let r = decoder.decode(&input);
        proof {
            let after = decoder.calls();
            let call = DecoderCall::Decode { input: input@, answer: r };
            assert(after.skip(before.len() as int).skip(mid.len() - before.len()) =~= seq![call]);
            assert(mid.len() == before.len() ==> after.skip(before.len() as int) =~= seq![call]);
        }
        if r.is_ok() {
            self.decoded = add_count(self.decoded, 1);
            if keyframe {
                self.keyframes = add_count(self.keyframes, 1);
            }
        }
        r
    }
}

impl Default for DecodeSession {
    fn default() -> (s: Self)
        ensures
            s@ == (DecodeView {
                config: None,
                codec: VideoCodec::H264,
                decoded: 0,
                keyframes: 0,
                configured: false,
            }),
    {
        DecodeSession::new()
    }
}

/// The effect of a run of frames that all went well, given the calls they made.
pub open spec fn fed_all(
    pre: DecodeView,
    post: DecodeView,
    frames: Seq<FrameView>,
    calls: Seq<DecoderCall>,
) -> bool
    decreases frames.len(),
{
    if frames.len() == 0 {
        post == pre && calls.len() == 0
    } else {
        exists|mid: DecodeView, n: int|
            {
                &&& 0 <= n <= calls.len()
                &&& fed_all(pre, mid, frames.drop_last(), calls.take(n))
                &&& #[trigger] fed(mid, post, frames.last(), calls.skip(n), Ok(()))
            }
    }
}

/// One more frame that went well.
pub proof fn lemma_fed_more(
    pre: DecodeView,
    mid: DecodeView,
    post: DecodeView,
    frames: Seq<FrameView>,
    frame: FrameView,
    calls: Seq<DecoderCall>,
    more: Seq<DecoderCall>,
)
    requires
        fed_all(pre, mid, frames, calls),
        fed(mid, post, frame, more, Ok(())),
    ensures
        fed_all(pre, post, frames.push(frame), calls + more),
{
    let all = calls + more;
    let n = calls.len() as int;
    assert(frames.push(frame).drop_last() =~= frames);
    assert(all.take(n) =~= calls);
    assert(all.skip(n) =~= more);
    assert(frames.push(frame).last() == frame);
    assert(fed(mid, post, frames.push(frame).last(), all.skip(n), Ok(())));
}

/// Whether a session holds together: it counts as configured exactly if it knows a configuration,
/// and every keyframe is an access unit.
pub open spec fn coherent(s: DecodeView) -> bool {
    &&& s.configured == s.config is Some
    &&& s.keyframes <= s.decoded
}

/// Every frame keeps a session coherent, whatever the decoder answers.
pub proof fn law_coherent(
    pre: DecodeView,
    post: DecodeView,
    frame: FrameView,
    calls: Seq<DecoderCall>,
    r: Result<(), DecodeError>,
)
    requires
        coherent(pre),
        fed(pre, post, frame, calls, r),
    ensures
        coherent(post),
{
}

/// A configuration that is already in force is not applied again.
pub proof fn law_same_config_not_reapplied(
    pre: DecodeView,
    post: DecodeView,
    codec: VideoCodec,
    sps_pps: Seq<u8>,
    calls: Seq<DecoderCall>,
    r: Result<(), DecodeError>,
)
    requires
        fed(pre, post, FrameView::VideoConfig { codec, sps_pps }, calls, r),
        pre.config is Some,
        codec_config_of(sps_pps) == pre.config,
    ensures
        calls.len() == 0,
        post == pre,
        r is Ok,
{
}

/// A decoder is configured before it gets its first access unit, whatever the frames are.
pub proof fn law_configured_before_decoding(
    pre: DecodeView,
    post: DecodeView,
    frames: Seq<FrameView>,
    calls: Seq<DecoderCall>,
)
    requires
        coherent(pre),
        !pre.configured,
        fed_all(pre, post, frames, calls),
    ensures
        coherent(post),
        calls.len() > 0 ==> calls[0] is Configure,
        calls.len() == 0 ==> !post.configured,
    decreases frames.len(),
{
    if frames.len() > 0 {
        let (mid, n) = choose|mid: DecodeView, n: int|
            {
                &&& 0 <= n <= calls.len()
                &&& fed_all(pre, mid, frames.drop_last(), calls.take(n))
                &&& #[trigger] fed(mid, post, frames.last(), calls.skip(n), Ok(()))
            };
        law_configured_before_decoding(pre, mid, frames.drop_last(), calls.take(n));
        if n > 0 {
            assert(calls.take(n)[0] == calls[0]);
        } else {
            assert(calls.skip(0) =~= calls);
        }
    }
}

/// A picture reaches a configured decoder with its own time and flag. It is handed on as it came,
/// but for a keyframe without parameter sets: those in force stand in front of that, each behind a
/// start code. The answer is the decoder's, and a picture that it took is counted, a keyframe
/// twice: as a picture and as a keyframe.
pub proof fn law_picture_reaches_the_decoder(
    pre: DecodeView,
    post: DecodeView,
    pts_us: u64,
    keyframe: bool,
    nal: Seq<u8>,
    calls: Seq<DecoderCall>,
    r: Result<(), DecodeError>,
)
    requires
        fed(pre, post, FrameView::Video { pts_us, keyframe, nal }, calls, r),
        coherent(pre),
        pre.configured,
        nal.len() > 0,
        pre.decoded < u64::MAX,
    ensures
        calls.len() == 1,
        calls[0] matches DecoderCall::Decode { input, answer } && {
            &&& answer == r
            &&& input.pts_us == pts_us
            &&& input.keyframe == keyframe
            &&& input.annex_b == if keyframe && codec_config_of(nal) is None {
                seq![0u8, 0u8, 0u8, 1u8] + pre.config->0.sps + seq![0u8, 0u8, 0u8, 1u8]
                    + pre.config->0.pps + nal
            } else {
                nal
            }
        },
        r is Ok ==> post.decoded == pre.decoded + 1,
        r is Ok && keyframe ==> post.keyframes == pre.keyframes + 1,
        r is Err ==> post.decoded == pre.decoded,
        r is Err || !keyframe ==> post.keyframes == pre.keyframes,
        post.config == pre.config,
        post.codec == pre.codec,
        post.configured,
{
    law_payload_reaches_the_decoder(nal, keyframe, pre.config);
}

/// An empty picture is refused without asking the decoder.
pub proof fn law_empty_picture_is_refused(
    pre: DecodeView,
    post: DecodeView,
    pts_us: u64,
    keyframe: bool,
    calls: Seq<DecoderCall>,
    r: Result<(), DecodeError>,
)
    requires
        fed(pre, post, FrameView::Video { pts_us, keyframe, nal: Seq::empty() }, calls, r),
        coherent(pre),
    ensures
        r is Err,
        calls.len() == 0,
        post == pre,
{
    let nal = Seq::<u8>::empty();
    law_payload_reaches_the_decoder(nal, keyframe, pre.config);
    law_config_is_the_first_of_each(nal);
}

/// Before any configuration, a picture is refused without asking the decoder, unless it is a
/// keyframe that carries its parameter sets.
pub proof fn law_picture_needs_a_config(
    pre: DecodeView,
    post: DecodeView,
    pts_us: u64,
    keyframe: bool,
    nal: Seq<u8>,
    calls: Seq<DecoderCall>,
    r: Result<(), DecodeError>,
)
    requires
        fed(pre, post, FrameView::Video { pts_us, keyframe, nal }, calls, r),
        coherent(pre),
        !pre.configured,
        !keyframe || codec_config_of(nal) is None,
    ensures
        r == Err::<(), DecodeError>(DecodeError::NoConfig),
        calls.len() == 0,
        post == pre,
{
}

/// A first keyframe that carries its parameter sets is enough to start: the decoder is configured
/// with them, and where it agrees, given the keyframe as it came.
pub proof fn law_first_keyframe_configures(
    pre: DecodeView,
    post: DecodeView,
    pts_us: u64,
    nal: Seq<u8>,
    calls: Seq<DecoderCall>,
    r: Result<(), DecodeError>,
)
    requires
        fed(pre, post, FrameView::Video { pts_us, keyframe: true, nal }, calls, r),
        coherent(pre),
        !pre.configured,
        codec_config_of(nal) is Some,
        nal.len() > 0,
        pre.decoded < u64::MAX,
    ensures
        calls.len() > 0,
        calls[0] matches DecoderCall::Configure { codec, config, answer } && {
            &&& codec == pre.codec
            &&& Some(config) == codec_config_of(nal)
            &&& answer is Err ==> r == answer && calls.len() == 1 && post == pre
            &&& answer is Ok ==> {
                &&& calls.len() == 2
                &&& calls[1] == (DecoderCall::Decode {
                    input: InputView { pts_us, keyframe: true, annex_b: nal },
                    answer: r,
                })
                &&& post.configured
                &&& post.config == codec_config_of(nal)
                &&& r is Ok ==> post.decoded == pre.decoded + 1 && post.keyframes == pre.keyframes
                    + 1
            }
        },
{
    law_payload_reaches_the_decoder(nal, true, codec_config_of(nal));
    assert(calls.skip(1).len() == 1 ==> calls.skip(1)[0] == calls[1]);
}

/// A configuration that brings something new is applied with its own codec and parameter sets, and
/// is in force if the decoder took it. One that cannot be read changes nothing.
pub proof fn law_new_config_is_applied(
    pre: DecodeView,
    post: DecodeView,
    codec: VideoCodec,
    sps_pps: Seq<u8>,
    calls: Seq<DecoderCall>,
    r: Result<(), DecodeError>,
)
    requires
        fed(pre, post, FrameView::VideoConfig { codec, sps_pps }, calls, r),
        codec_config_of(sps_pps) is None || codec_config_of(sps_pps) != pre.config,
    ensures
        codec_config_of(sps_pps) is None ==> calls.len() == 0 && post == pre && r is Ok,
        codec_config_of(sps_pps) matches Some(config) ==> {
            &&& calls == seq![DecoderCall::Configure { codec, config, answer: r }]
            &&& post.codec == codec
            &&& r is Ok ==> post.configured && post.config == Some(config)
            &&& r is Err ==> post.configured == pre.configured && post.config == pre.config
            &&& post.decoded == pre.decoded
            &&& post.keyframes == pre.keyframes
        },
{
}

/// Frames that are no video do nothing here.
pub proof fn law_other_frames_are_ignored(
    pre: DecodeView,
    post: DecodeView,
    frame: FrameView,
    calls: Seq<DecoderCall>,
    r: Result<(), DecodeError>,
)
    requires
        fed(pre, post, frame, calls, r),
        frame !is Video,
        frame !is VideoConfig,
    ensures
        calls.len() == 0,
        post == pre,
        r is Ok,
{
}

/// An access unit for the decoder is seen as it is, each value under its own name.
pub proof fn law_input_is_seen_as_it_is(input: DecoderInput)
    ensures
        input@.pts_us == input.pts_us,
        input@.keyframe == input.keyframe,
        input@.annex_b == input.annex_b@,
{
}

} // verus!
