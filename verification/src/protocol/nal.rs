//! H.264 Annex-B NAL-unit parsing.
//!
//! In an Annex-B stream each NAL unit is preceded by a start code, `00 00 01`, to which further
//! zero bytes in front belong. The low five bits of a unit's first byte are its type.

pub mod nal_type;
pub mod sps;

pub use sps::sps_dimensions;

use vstd::prelude::*;
use vstd::slice::{slice_subrange, slice_to_vec};

verus! {

/// Codec configuration extracted from an H.264 stream: the two parameter sets without their start
/// codes.
#[derive(Debug, Clone, PartialEq, Eq)]
pub struct CodecConfig {
    /// The sequence parameter set.
    pub sps: Vec<u8>,
    /// The picture parameter set.
    pub pps: Vec<u8>,
}

/// A [`CodecConfig`] by its bytes.
#[verifier::ext_equal]
pub struct CodecConfigView {
    pub sps: Seq<u8>,
    pub pps: Seq<u8>,
}

impl View for CodecConfig {
    type V = CodecConfigView;

    open spec fn view(&self) -> CodecConfigView {
        CodecConfigView { sps: self.sps@, pps: self.pps@ }
    }
}

/// An optional [`CodecConfig`] by its bytes.
pub open spec fn config_view(config: Option<CodecConfig>) -> Option<CodecConfigView> {
    match config {
        Some(c) => Some(c@),
        None => None,
    }
}

impl CodecConfig {
    /// A copy with the same bytes.
    pub fn copy(&self) -> (r: CodecConfig)
        ensures
            r@ == self@,
    {
        CodecConfig {
            sps: slice_to_vec(self.sps.as_slice()),
            pps: slice_to_vec(self.pps.as_slice()),
        }
    }

    /// Whether the two configurations hold the same bytes.
    pub fn same_as(&self, other: &CodecConfig) -> (r: bool)
        ensures
            r == (self@ == other@),
    {
        same_bytes(self.sps.as_slice(), other.sps.as_slice()) && same_bytes(
            self.pps.as_slice(),
            other.pps.as_slice(),
        )
    }
}

/// Whether two byte strings are equal.
pub fn same_bytes(a: &[u8], b: &[u8]) -> (r: bool)
    ensures
        r == (a@ == b@),
{
    if a.len() != b.len() {
        return false;
    }
    let mut i: usize = 0;
    while i < a.len()
        invariant
            i <= a@.len(),
            a@.len() == b@.len(),
            forall|j: int| 0 <= j < i ==> a@[j] == b@[j],
        decreases a.len() - i,
    {
        if a[i] != b[i] {
            return false;
        }
        i = i + 1;
    }
    proof {
        assert(a@ =~= b@);
    }
    true
}

/// Whether the marker `00 00 01` stands at position `i` of `s`.
pub open spec fn start_code_at(s: Seq<u8>, i: int) -> bool {
    0 <= i && i + 3 <= s.len() && s[i] == 0 && s[i + 1] == 0 && s[i + 2] == 1
}

/// The position of the first marker in `s`.
pub open spec fn first_start_code(s: Seq<u8>) -> Option<int>
    decreases s.len(),
{
    if s.len() < 3 {
        None
    } else if start_code_at(s, 0) {
        Some(0)
    } else {
        match first_start_code(s.skip(1)) {
            Some(i) => Some(i + 1),
            None => None,
        }
    }
}

/// `s` without the zero bytes at its end.
pub open spec fn strip_zeros(s: Seq<u8>) -> Seq<u8>
    decreases s.len(),
{
    if s.len() > 0 && s.last() == 0 {
        strip_zeros(s.drop_last())
    } else {
        s
    }
}

/// A list of at most one unit: an empty unit is no unit.
pub open spec fn if_not_empty(unit: Seq<u8>) -> Seq<Seq<u8>> {
    if unit.len() == 0 {
        Seq::empty()
    } else {
        seq![unit]
    }
}

/// The units in `data`, which begins right behind a start code: each reaches to the next start
/// code (without the zeros in front of it) or to the end of the stream.
pub open spec fn units_after_start(data: Seq<u8>) -> Seq<Seq<u8>>
    decreases data.len(),
{
    match first_start_code(data) {
        None => if_not_empty(data),
        Some(i) => if 0 <= i && i + 3 <= data.len() {
            if_not_empty(strip_zeros(data.take(i))) + units_after_start(data.skip(i + 3))
        } else {
            Seq::empty()
        },
    }
}

/// The NAL units of an Annex-B `stream`, in order; what stands before the first start code is
/// none.
pub open spec fn nal_units(stream: Seq<u8>) -> Seq<Seq<u8>> {
    match first_start_code(stream) {
        None => Seq::empty(),
        Some(i) => units_after_start(stream.skip(i + 3)),
    }
}

/// The type of a NAL unit: the low five bits of its first byte.
pub open spec fn unit_type(unit: Seq<u8>) -> Option<u8> {
    if unit.len() == 0 {
        None
    } else {
        Some((unit[0] % 32) as u8)
    }
}

/// The first unit of the given type.
pub open spec fn first_of_type(units: Seq<Seq<u8>>, t: u8) -> Option<Seq<u8>>
    decreases units.len(),
{
    if units.len() == 0 {
        None
    } else if unit_type(units[0]) == Some(t) {
        Some(units[0])
    } else {
        first_of_type(units.skip(1), t)
    }
}

/// The codec configuration of `stream`: its first SPS and its first PPS, if it has both.
pub open spec fn codec_config_of(stream: Seq<u8>) -> Option<CodecConfigView> {
    match (first_of_type(nal_units(stream), nal_type::SPS), first_of_type(nal_units(stream), nal_type::PPS)) {
        (Some(sps), Some(pps)) => Some(CodecConfigView { sps, pps }),
        _ => None,
    }
}

/// Whether `stream` holds an IDR slice.
pub open spec fn has_idr(stream: Seq<u8>) -> bool {
    first_of_type(nal_units(stream), nal_type::IDR_SLICE) is Some
}

/// [`first_start_code`] is the least position of a marker, and there is none where it is `None`.
pub proof fn lemma_first_start_code(s: Seq<u8>)
    ensures
        first_start_code(s) matches Some(i) ==> start_code_at(s, i) && forall|j: int|
            j < i ==> !#[trigger] start_code_at(s, j),
        first_start_code(s) is None ==> forall|j: int| !#[trigger] start_code_at(s, j),
    decreases s.len(),
{
    if s.len() >= 3 && !start_code_at(s, 0) {
        let t = s.skip(1);
        lemma_first_start_code(t);
        assert forall|j: int| j != 0 implies start_code_at(s, j) == #[trigger] start_code_at(
            t,
            j - 1,
        ) by {}
        assert forall|j: int|
            (match first_start_code(s) {
                Some(i) => j < i,
                None => true,
            }) implies !#[trigger] start_code_at(s, j) by {
            if j != 0 {
                assert(start_code_at(s, j) == start_code_at(t, j - 1));
            }
        }
    }
}

/// A marker with none before it is the first one.
pub proof fn lemma_first_start_code_is(s: Seq<u8>, i: int)
    requires
        start_code_at(s, i),
        forall|j: int| j < i ==> !#[trigger] start_code_at(s, j),
    ensures
        first_start_code(s) == Some(i),
{
    lemma_first_start_code(s);
    match first_start_code(s) {
        Some(k) => {
            assert(start_code_at(s, k));
        },
        None => {
            assert(!start_code_at(s, i));
        },
    }
}

/// The next start code at or after `from`, as `(start, data)`: `start` is its first byte, leading
/// zeros included as far as they stand behind `from`, and `data` is the first byte behind it.
fn find_start_code(stream: &[u8], from: usize) -> (r: Option<(usize, usize)>)
    requires
        from <= stream@.len(),
    ensures
        match r {
            None => first_start_code(stream@.skip(from as int)) is None,
            Some((start, data)) => {
                &&& from <= start <= data - 3
                &&& data <= stream@.len()
                &&& first_start_code(stream@.skip(from as int)) == Some(data - 3 - from)
                &&& stream@.subrange(from as int, start as int) == strip_zeros(
                    stream@.subrange(from as int, data - 3),
                )
            },
        },
{
    let ghost tail = stream@.skip(from as int);
    let mut i: usize = from;
    while stream.len() - i >= 3
        invariant
            from <= i <= stream@.len(),
            tail == stream@.skip(from as int),
            forall|j: int| j < i - from ==> !#[trigger] start_code_at(tail, j),
        decreases stream.len() - i,
    {
        if stream[i] == 0 && stream[i + 1] == 0 && stream[i + 2] == 1 {
            let mut start: usize = i;
            while start > from && stream[start - 1] == 0
                invariant
                    from <= start <= i,
                    i <= stream@.len(),
                    strip_zeros(stream@.subrange(from as int, start as int)) == strip_zeros(
                        stream@.subrange(from as int, i as int),
                    ),
                decreases start,
            {
                proof {
                    assert(stream@.subrange(from as int, start as int).drop_last()
                        =~= stream@.subrange(from as int, start - 1));
                }
                start = start - 1;
            }
            proof {
                assert(start_code_at(tail, i - from));
                lemma_first_start_code_is(tail, i - from);
            }
            return Some((start, i + 3));
        }
        proof {
            assert(!start_code_at(tail, i - from));
        }
        i = i + 1;
    }
    proof {
        lemma_first_start_code(tail);
        match first_start_code(tail) {
            Some(k) => {
                assert(start_code_at(tail, k));
            },
            None => {},
        }
    }
    None
}

/// The bytes of each of a list of units.
pub open spec fn unit_bytes(units: Seq<&[u8]>) -> Seq<Seq<u8>> {
    Seq::new(units.len(), |i: int| units[i]@)
}

/// A cursor over the NAL units of an Annex-B stream. Each unit is handed out without its start
/// code; empty units are skipped.
///
/// Zero bytes at the end of a unit that is followed by a start code belong to that start code, so
/// they are not part of the unit.
pub struct NalUnits<'a> {
    stream: &'a [u8],
    data_start: Option<usize>,
    search_from: usize,
}

impl<'a> NalUnits<'a> {
    #[verifier::type_invariant]
    spec fn inv(self) -> bool {
        &&& self.search_from <= self.stream@.len()
        &&& (self.data_start matches Some(ds) ==> ds == self.search_from)
    }

    /// The units that are still to come.
    pub closed spec fn remaining(self) -> Seq<Seq<u8>> {
        match self.data_start {
            Some(ds) => units_after_start(self.stream@.skip(ds as int)),
            None => nal_units(self.stream@.skip(self.search_from as int)),
        }
    }

    /// The next unit, if there is one.
    pub fn next(&mut self) -> (r: Option<&'a [u8]>)
        ensures
            match r {
                Some(unit) => {
                    &&& old(self).remaining().len() > 0
                    &&& unit@ == old(self).remaining()[0]
                    &&& final(self).remaining() == old(self).remaining().skip(1)
                },
                None => {
                    &&& old(self).remaining().len() == 0
                    &&& final(self).remaining().len() == 0
                },
            },
    {
        proof {
            use_type_invariant(&*self);
        }
        let stream: &'a [u8] = self.stream;
        let mut data_start: usize = match self.data_start {
            Some(ds) => ds,
            None => {
                match find_start_code(stream, self.search_from) {
                    Some((_, ds)) => {
                        proof {
                            assert(stream@.skip(self.search_from as int).skip(ds - self.search_from)
                                =~= stream@.skip(ds as int));
                        }
                        ds
                    },
                    None => {
                        return None;
                    },
                }
            },
        };
        loop
            invariant
                data_start <= stream@.len(),
                stream@ == self.stream@,
                old(self).remaining() == units_after_start(stream@.skip(data_start as int)),
            decreases stream.len() - data_start,
        {
            let ghost data = stream@.skip(data_start as int);
            match find_start_code(stream, data_start) {
                Some((start, next)) => {
                    let unit: &'a [u8] = slice_subrange(stream, data_start, start);
                    proof {
                        assert(data.take(next - 3 - data_start) =~= stream@.subrange(
                            data_start as int,
                            next - 3,
                        ));
                        assert(data.skip(next - data_start) =~= stream@.skip(next as int));
                        assert(old(self).remaining() == if_not_empty(unit@) + units_after_start(
                            stream@.skip(next as int),
                        ));
                    }
                    if unit.len() > 0 {
                        *self = NalUnits { stream, data_start: Some(next), search_from: next };
                        proof {
                            assert(old(self).remaining().skip(1) =~= self.remaining());
                        }
                        return Some(unit);
                    }
                    proof {
                        assert(if_not_empty(unit@) + units_after_start(stream@.skip(next as int))
                            =~= units_after_start(stream@.skip(next as int)));
                    }
                    data_start = next;
                },
                None => {
                    let unit: &'a [u8] = slice_subrange(stream, data_start, stream.len());
                    *self = NalUnits { stream, data_start: None, search_from: stream.len() };
                    proof {
                        assert(unit@ =~= data);
                        assert(stream@.skip(stream@.len() as int).len() == 0);
                        assert(self.remaining() =~= Seq::empty());
                    }
                    if unit.len() == 0 {
                        return None;
                    }
                    proof {
                        assert(old(self).remaining().skip(1) =~= self.remaining());
                    }
                    return Some(unit);
                },
            }
        }
    }

    /// All units that are still to come.
    pub fn collect(self) -> (units: Vec<&'a [u8]>)
        ensures
            unit_bytes(units@) == self.remaining(),
    {
        let ghost all = self.remaining();
        let mut iter = self;
        let mut units: Vec<&'a [u8]> = Vec::new();
        loop
            invariant_except_break
                all == unit_bytes(units@) + iter.remaining(),
            ensures
                all == unit_bytes(units@),
            decreases iter.remaining().len(),
        {
            let ghost before = iter.remaining();
            let ghost had = units@;
            match iter.next() {
                Some(unit) => {
                    units.push(unit);
                    proof {
                        assert(unit_bytes(units@) =~= unit_bytes(had).push(unit@));
                        assert(before =~= seq![unit@] + iter.remaining());
                        assert(all =~= unit_bytes(units@) + iter.remaining());
                    }
                },
                None => {
                    proof {
                        assert(all =~= unit_bytes(units@));
                    }
                    break;
                },
            }
        }
        units
    }
}

/// The NAL units in an Annex-B `stream`.
pub fn iter_nal_units<'a>(stream: &'a [u8]) -> (units: NalUnits<'a>)
    ensures
        units.remaining() == nal_units(stream@),
{
    proof {
        assert(stream@.skip(0) =~= stream@);
    }
    NalUnits { stream, data_start: None, search_from: 0 }
}

/// The `nal_unit_type` of a NAL unit, or `None` if it is empty.
pub fn nal_unit_type(nal: &[u8]) -> (r: Option<u8>)
    ensures
        r == unit_type(nal@),
{
    if nal.len() == 0 {
        None
    } else {
        let b: u8 = nal[0];
        proof {
            assert(b & 0x1f == b % 32) by (bit_vector);
        }
        Some(b & 0x1f)
    }
}

/// The first SPS and the first PPS of an Annex-B `stream`, or `None` if either is absent.
pub fn extract_codec_config(stream: &[u8]) -> (r: Option<CodecConfig>)
    ensures
        config_view(r) == codec_config_of(stream@),
{
    let ghost all = nal_units(stream@);
    let mut iter = iter_nal_units(stream);
    let mut sps: Option<Vec<u8>> = None;
    let mut pps: Option<Vec<u8>> = None;
    loop
        invariant_except_break
            all == nal_units(stream@),
            sps is None || pps is None,
            match sps {
                Some(v) => first_of_type(all, nal_type::SPS) == Some(v@),
                None => first_of_type(all, nal_type::SPS) == first_of_type(iter.remaining(), nal_type::SPS),
            },
            match pps {
                Some(v) => first_of_type(all, nal_type::PPS) == Some(v@),
                None => first_of_type(all, nal_type::PPS) == first_of_type(iter.remaining(), nal_type::PPS),
            },
        ensures
            match sps {
                Some(v) => first_of_type(all, nal_type::SPS) == Some(v@),
                None => first_of_type(all, nal_type::SPS) is None,
            },
            match pps {
                Some(v) => first_of_type(all, nal_type::PPS) == Some(v@),
                None => first_of_type(all, nal_type::PPS) is None,
            },
        decreases iter.remaining().len(),
    {
        match iter.next() {
            Some(nal) => {
                match nal_unit_type(nal) {
                    Some(t) => {
                        if t == nal_type::SPS && sps.is_none() {
                            sps = Some(slice_to_vec(nal));
                        } else if t == nal_type::PPS && pps.is_none() {
                            pps = Some(slice_to_vec(nal));
                        }
                    },
                    None => {},
                }
                if sps.is_some() && pps.is_some() {
                    break;
                }
            },
            None => {
                break;
            },
        }
    }
    match sps {
        Some(sps) => match pps {
            Some(pps) => Some(CodecConfig { sps, pps }),
            None => None,
        },
        None => None,
    }
}

/// Whether `stream` contains an IDR slice.
pub fn is_keyframe(stream: &[u8]) -> (r: bool)
    ensures
        r == has_idr(stream@),
{
    let mut iter = iter_nal_units(stream);
    loop
        invariant
            first_of_type(nal_units(stream@), nal_type::IDR_SLICE) == first_of_type(
                iter.remaining(),
                nal_type::IDR_SLICE,
            ),
        decreases iter.remaining().len(),
    {
        match iter.next() {
            Some(nal) => {
                if let Some(t) = nal_unit_type(nal) {
                    if t == nal_type::IDR_SLICE {
                        return true;
                    }
                }
            },
            None => {
                return false;
            },
        }
    }
}

/// The bytes `00 00 00 01`, which stand in front of every unit that is written.
pub open spec fn start_code() -> Seq<u8> {
    seq![0u8, 0u8, 0u8, 1u8]
}

/// The Annex-B stream of a list of units.
pub open spec fn annex_b(units: Seq<Seq<u8>>) -> Seq<u8>
    decreases units.len(),
{
    if units.len() == 0 {
        Seq::empty()
    } else {
        annex_b(units.drop_last()) + start_code() + units.last()
    }
}

/// Append one unit, start code first, to an Annex-B stream.
pub fn push_unit(out: &mut Vec<u8>, unit: &[u8])
    ensures
        final(out)@ == old(out)@ + start_code() + unit@,
{
    let code: [u8; 4] = [0, 0, 0, 1];
    proof {
        assert(code@ =~= start_code());
    }
    out.extend_from_slice(&code);
    out.extend_from_slice(unit);
}

/// Why an access unit could not be built.
#[derive(Debug, Clone, Copy, PartialEq, Eq, Structural)]
pub enum AccessUnitError {
    /// The payload holds no bytes.
    EmptyPayload,
}

/// The decoder-ready form of a video payload: a keyframe that does not carry its parameter sets
/// gets the known ones in front; anything else is as it came.
pub open spec fn access_unit_of(
    nal: Seq<u8>,
    keyframe: bool,
    config: Option<CodecConfigView>,
) -> Result<Seq<u8>, AccessUnitError> {
    if nal.len() == 0 {
        Err(AccessUnitError::EmptyPayload)
    } else {
        match config {
            Some(c) => if keyframe && codec_config_of(nal) is None {
                Ok(annex_b(seq![c.sps, c.pps]) + nal)
            } else {
                Ok(nal)
            },
            None => Ok(nal),
        }
    }
}

/// Build the decoder-ready Annex-B access unit for a video payload, injecting the known SPS and
/// PPS ahead of a bare keyframe.
pub fn to_annex_b_access_unit(nal: &[u8], keyframe: bool, config: Option<&CodecConfig>) -> (r: Result<
    Vec<u8>,
    AccessUnitError,
>)
    ensures
        match r {
            Ok(unit) => access_unit_of(
                nal@,
                keyframe,
                match config {
                    Some(c) => Some(c@),
                    None => None,
                },
            ) == Ok::<Seq<u8>, AccessUnitError>(unit@),
            Err(e) => access_unit_of(
                nal@,
                keyframe,
                match config {
                    Some(c) => Some(c@),
                    None => None,
                },
            ) == Err::<Seq<u8>, AccessUnitError>(e),
        },
{
    if nal.len() == 0 {
        return Err(AccessUnitError::EmptyPayload);
    }
    let mut out: Vec<u8> = Vec::new();
    if let Some(c) = config {
        if keyframe {
            if extract_codec_config(nal).is_none() {
                push_unit(&mut out, c.sps.as_slice());
                push_unit(&mut out, c.pps.as_slice());
                proof {
                    lemma_annex_b_two(c@.sps, c@.pps);
                    assert(out@ =~= annex_b(seq![c@.sps, c@.pps]));
                }
            }
        }
    }
    let ghost prefix = out@;
    out.extend_from_slice(nal);
    proof {
        assert(prefix.len() == 0 ==> out@ =~= nal@);
        assert(out@ =~= prefix + nal@);
    }
    Ok(out)
}

/// The stream of two units, written out.
pub proof fn lemma_annex_b_two(a: Seq<u8>, b: Seq<u8>)
    ensures
        annex_b(seq![a, b]) == start_code() + a + (start_code() + b),
{
    let two = seq![a, b];
    assert(two.drop_last() =~= seq![a]);
    assert(seq![a].drop_last() =~= Seq::<Seq<u8>>::empty());
    reveal_with_fuel(annex_b, 3);
    assert(annex_b(two) =~= start_code() + a + (start_code() + b));
}

/// The stream of two lists of units is one stream behind the other.
pub proof fn lemma_annex_b_concat(a: Seq<Seq<u8>>, b: Seq<Seq<u8>>)
    ensures
        annex_b(a + b) == annex_b(a) + annex_b(b),
    decreases b.len(),
{
    if b.len() == 0 {
        assert(a + b =~= a);
        assert(annex_b(a) + annex_b(b) =~= annex_b(a));
    } else {
        assert((a + b).drop_last() =~= a + b.drop_last());
        lemma_annex_b_concat(a, b.drop_last());
        assert(annex_b(a + b) =~= annex_b(a) + annex_b(b));
    }
}

/// The stream of a list is its first unit, then the stream of the others.
pub proof fn lemma_annex_b_first(units: Seq<Seq<u8>>)
    requires
        units.len() > 0,
    ensures
        annex_b(units) == start_code() + units[0] + annex_b(units.skip(1)),
{
    let first = seq![units[0]];
    assert(units =~= first + units.skip(1));
    lemma_annex_b_concat(first, units.skip(1));
    assert(first.drop_last() =~= Seq::<Seq<u8>>::empty());
    reveal_with_fuel(annex_b, 2);
    assert(annex_b(first) =~= start_code() + units[0]);
}

/// Whether a unit can be told apart from the start code of the next: it holds no marker.
pub open spec fn no_marker(unit: Seq<u8>) -> bool {
    forall|i: int| !#[trigger] start_code_at(unit, i)
}

/// Whether `t` begins with a start code: zeros, two at least, and then a one.
pub open spec fn begins_with_start_code(t: Seq<u8>) -> bool {
    &&& t.len() >= 3
    &&& t[0] == 0
    &&& t[1] == 0
    &&& first_start_code(t) matches Some(k) && forall|i: int| 0 <= i < k ==> #[trigger] t[i] == 0
}

/// Zeros behind `u` are stripped along with those at its end.
proof fn lemma_strip_zeros_padded(u: Seq<u8>, z: Seq<u8>)
    requires
        forall|i: int| 0 <= i < z.len() ==> #[trigger] z[i] == 0,
    ensures
        strip_zeros(u + z) == strip_zeros(u),
    decreases z.len(),
{
    if z.len() == 0 {
        assert(u + z =~= u);
    } else {
        assert((u + z).last() == z.last());
        assert((u + z).drop_last() =~= u + z.drop_last());
        lemma_strip_zeros_padded(u, z.drop_last());
    }
}

/// A unit without a marker that is followed by a start code ends there, whatever comes later.
pub proof fn lemma_unit_then_start_code(u: Seq<u8>, t: Seq<u8>)
    requires
        no_marker(u),
        begins_with_start_code(t),
    ensures
        units_after_start(u + t) == if_not_empty(strip_zeros(u)) + nal_units(t),
{
    let data = u + t;
    let k = first_start_code(t)->Some_0;
    lemma_first_start_code(t);
    let at = u.len() + k;
    assert(start_code_at(data, at));
    assert forall|j: int| j < at implies !#[trigger] start_code_at(data, j) by {
        if start_code_at(data, j) {
            if j + 3 <= u.len() {
                assert(start_code_at(u, j));
            } else if j >= u.len() {
                assert(start_code_at(t, j - u.len()));
            } else if j + 2 == u.len() {
                assert(data[j + 2] == t[0]);
            } else {
                assert(data[j + 2] == t[1]);
            }
        }
    }
    lemma_first_start_code_is(data, at);
    assert(data.take(at) =~= u + t.take(k));
    lemma_strip_zeros_padded(u, t.take(k));
    assert(data.skip(at + 3) =~= t.skip(k + 3));
}

/// A stream that is not empty begins with a start code, and its units are those behind it.
pub proof fn lemma_stream_begins(rest: Seq<u8>)
    ensures
        begins_with_start_code(start_code() + rest),
        nal_units(start_code() + rest) == units_after_start(rest),
{
    let s = start_code() + rest;
    assert(start_code_at(s, 1));
    assert(!start_code_at(s, 0));
    lemma_first_start_code_is(s, 1);
    assert(s.skip(4) =~= rest);
}

/// Where the units of `data` begin, which begins right behind a start code and at the index `base`
/// of a stream.
pub open spec fn starts_after(data: Seq<u8>, base: int) -> Seq<int>
    decreases data.len(),
{
    match first_start_code(data) {
        None => if data.len() == 0 {
            Seq::empty()
        } else {
            seq![base]
        },
        Some(i) => if 0 <= i && i + 3 <= data.len() {
            (if strip_zeros(data.take(i)).len() == 0 {
                Seq::empty()
            } else {
                seq![base]
            }) + starts_after(data.skip(i + 3), base + i + 3)
        } else {
            Seq::empty()
        },
    }
}

/// Where the units of a stream begin.
pub open spec fn unit_starts(stream: Seq<u8>) -> Seq<int> {
    match first_start_code(stream) {
        None => Seq::empty(),
        Some(i) => starts_after(stream.skip(i + 3), i + 3),
    }
}

/// Whether a unit stands at an index of a stream: right behind a start code, with something in it,
/// without a marker inside, and without a zero at its end unless the stream ends there.
pub open spec fn unit_stands(stream: Seq<u8>, unit: Seq<u8>, at: int) -> bool {
    &&& start_code_at(stream, at - 3)
    &&& unit.len() > 0
    &&& at + unit.len() <= stream.len()
    &&& unit == stream.subrange(at, at + unit.len())
    &&& no_marker(unit)
    &&& unit.last() != 0 || at + unit.len() == stream.len()
}

/// Whether the marker at an index of a stream has no unit behind it: nothing before the end, or
/// nothing but zeros before the next one.
pub open spec fn nothing_behind(stream: Seq<u8>, at: int) -> bool {
    ||| at + 3 == stream.len()
    ||| exists|next: int|
        {
            &&& at + 3 <= next
            &&& #[trigger] start_code_at(stream, next)
            &&& forall|k: int| at + 3 <= k < next ==> #[trigger] stream[k] == 0
        }
}

/// Whether some units are those of a stream from an index on: each stands where it begins, they come
/// in order and do not overlap, and every marker has its unit unless there is nothing behind it.
pub open spec fn units_placed(
    stream: Seq<u8>,
    units: Seq<Seq<u8>>,
    starts: Seq<int>,
    from: int,
) -> bool {
    &&& units.len() == starts.len()
    &&& forall|i: int|
        0 <= i < units.len() ==> starts[i] >= from + 3 && unit_stands(
            stream,
            #[trigger] units[i],
            starts[i],
        )
    &&& forall|i: int, j: int|
        0 <= i < j < units.len() ==> #[trigger] starts[i] + units[i].len() + 3 <= #[trigger] starts[j]
    &&& forall|m: int|
        m >= from && #[trigger] start_code_at(stream, m) ==> starts.contains(m + 3)
            || nothing_behind(stream, m)
}

/// Stripping zeros takes a run of zeros off the end, and all of it.
proof fn lemma_strip_zeros(s: Seq<u8>)
    ensures
        strip_zeros(s).len() <= s.len(),
        strip_zeros(s) == s.take(strip_zeros(s).len() as int),
        strip_zeros(s).len() > 0 ==> strip_zeros(s).last() != 0,
        forall|k: int| strip_zeros(s).len() <= k < s.len() ==> #[trigger] s[k] == 0,
    decreases s.len(),
{
    if s.len() > 0 && s.last() == 0 {
        lemma_strip_zeros(s.drop_last());
        let n = strip_zeros(s).len() as int;
        assert(s.drop_last().take(n) =~= s.take(n));
        assert forall|k: int| n <= k < s.len() implies #[trigger] s[k] == 0 by {
            if k < s.len() - 1 {
                assert(s.drop_last()[k] == s[k]);
            }
        }
    } else {
        assert(s.take(s.len() as int) =~= s);
    }
}

proof fn lemma_units_placed(stream: Seq<u8>, base: int)
    requires
        3 <= base <= stream.len(),
        start_code_at(stream, base - 3),
    ensures
        units_placed(
            stream,
            units_after_start(stream.skip(base)),
            starts_after(stream.skip(base), base),
            base - 3,
        ),
    decreases stream.len() - base,
{
    let data = stream.skip(base);
    let units = units_after_start(data);
    let starts = starts_after(data, base);
    lemma_first_start_code(data);
    match first_start_code(data) {
        None => {
            assert forall|m: int| m >= base - 3 && #[trigger] start_code_at(stream, m) implies
                starts.contains(m + 3) || nothing_behind(stream, m) by {
                if m >= base {
                    assert(start_code_at(data, m - base));
                } else if m > base - 3 {
                    assert(stream[base - 1] == 1);
                    assert(m == base - 2 || m == base - 1);
                } else if data.len() > 0 {
                    assert(starts[0] == m + 3);
                }
            }
            if data.len() > 0 {
                assert(data =~= stream.subrange(base, base + data.len()));
                assert forall|i: int| !#[trigger] start_code_at(data, i) by {}
            }
        },
        Some(i) => {
            let next = base + i;
            let body = data.take(i);
            let unit = strip_zeros(body);
            let more_units = units_after_start(stream.skip(next + 3));
            let more_starts = starts_after(stream.skip(next + 3), next + 3);
            assert(data.skip(i + 3) =~= stream.skip(next + 3));
            assert(start_code_at(data, i));
            assert(start_code_at(stream, next));
            lemma_units_placed(stream, next + 3);
            lemma_strip_zeros(body);
            let first_units = if_not_empty(unit);
            let first_starts = if unit.len() == 0 {
                Seq::<int>::empty()
            } else {
                seq![base]
            };
            assert(units == first_units + more_units);
            assert(starts == first_starts + more_starts);
            let f = first_units.len() as int;
            if unit.len() > 0 {
                assert(unit =~= stream.subrange(base, base + unit.len()));
                assert forall|k: int| !#[trigger] start_code_at(unit, k) by {
                    if start_code_at(unit, k) {
                        assert(start_code_at(data, k));
                    }
                }
                assert(unit_stands(stream, unit, base));
            }
            assert forall|k: int| 0 <= k < units.len() implies starts[k] >= base && unit_stands(
                stream,
                #[trigger] units[k],
                starts[k],
            ) by {
                if k >= f {
                    assert(units[k] == more_units[k - f]);
                    assert(starts[k] == more_starts[k - f]);
                }
            }
            assert forall|a: int, b: int| 0 <= a < b < units.len() implies #[trigger] starts[a]
                + units[a].len() + 3 <= #[trigger] starts[b] by {
                assert(starts[b] == more_starts[b - f]);
                assert(units[b] == more_units[b - f]);
                assert(more_starts[b - f] >= next + 3);
                if a >= f {
                    assert(starts[a] == more_starts[a - f]);
                    assert(units[a] == more_units[a - f]);
                }
            }
            assert forall|m: int| m >= base - 3 && #[trigger] start_code_at(stream, m) implies
                starts.contains(m + 3) || nothing_behind(stream, m) by {
                if m >= next {
                    if more_starts.contains(m + 3) {
                        let k = choose|k: int| 0 <= k < more_starts.len() && more_starts[k] == m + 3;
                        assert(starts[f + k] == m + 3);
                    }
                } else if m >= base {
                    assert(start_code_at(data, m - base));
                } else if m > base - 3 {
                    assert(stream[base - 1] == 1);
                } else if unit.len() > 0 {
                    assert(starts[0] == m + 3);
                } else {
                    assert forall|k: int| m + 3 <= k < next implies #[trigger] stream[k] == 0 by {
                        assert(body[k - base] == stream[k]);
                    }
                }
            }
        },
    }
}

/// What the units of a stream are: each is not empty, stands right behind a start code, holds no
/// marker, and does not end in a zero unless the stream ends there. They come in stream order
/// without overlap. Every marker opens a unit, unless nothing but zeros lies before the next one, or
/// nothing before the end.
pub proof fn law_units_of_a_stream(stream: Seq<u8>)
    ensures
        units_placed(stream, nal_units(stream), unit_starts(stream), 0),
{
    lemma_first_start_code(stream);
    match first_start_code(stream) {
        None => {},
        Some(i) => {
            assert(start_code_at(stream, i));
            lemma_units_placed(stream, i + 3);
        },
    }
}

/// What a reader sees of a list of units: zeros at the end of each but the last are gone, and a
/// unit that is left empty is skipped.
pub open spec fn seen_units(units: Seq<Seq<u8>>) -> Seq<Seq<u8>>
    decreases units.len(),
{
    if units.len() == 0 {
        Seq::empty()
    } else if units.len() == 1 {
        if_not_empty(units[0])
    } else {
        if_not_empty(strip_zeros(units[0])) + seen_units(units.skip(1))
    }
}

/// Splitting the stream of a list of units, none of which holds a marker, gives what
/// [`seen_units`] says.
pub proof fn law_split_of_annex_b(units: Seq<Seq<u8>>)
    requires
        forall|i: int| 0 <= i < units.len() ==> no_marker(#[trigger] units[i]),
    ensures
        nal_units(annex_b(units)) == seen_units(units),
    decreases units.len(),
{
    if units.len() > 0 {
        let rest = units.skip(1);
        lemma_annex_b_first(units);
        let tail = annex_b(rest);
        assert(start_code() + units[0] + tail =~= start_code() + (units[0] + tail));
        lemma_stream_begins(units[0] + tail);
        if rest.len() == 0 {
            assert(units[0] + tail =~= units[0]);
            lemma_first_start_code(units[0]);
            match first_start_code(units[0]) {
                Some(k) => {
                    assert(start_code_at(units[0], k));
                },
                None => {},
            }
        } else {
            lemma_annex_b_first(rest);
            let behind = rest[0] + annex_b(rest.skip(1));
            assert(tail =~= start_code() + behind);
            lemma_stream_begins(behind);
            lemma_unit_then_start_code(units[0], tail);
            law_split_of_annex_b(rest);
        }
    }
}

/// Units that are not empty, hold no marker and (but for the last) do not end in a zero come back
/// from their stream exactly as they went in.
pub proof fn law_annex_b_round_trip(units: Seq<Seq<u8>>)
    requires
        forall|i: int|
            0 <= i < units.len() ==> no_marker(#[trigger] units[i]) && units[i].len() > 0 && (i + 1
                < units.len() ==> units[i].last() != 0),
    ensures
        nal_units(annex_b(units)) == units,
{
    law_split_of_annex_b(units);
    lemma_seen_units_of_clean(units);
}

proof fn lemma_seen_units_of_clean(units: Seq<Seq<u8>>)
    requires
        forall|i: int|
            0 <= i < units.len() ==> (#[trigger] units[i]).len() > 0 && (i + 1 < units.len()
                ==> units[i].last() != 0),
    ensures
        seen_units(units) == units,
    decreases units.len(),
{
    if units.len() == 1 {
        assert(seen_units(units) =~= units);
    } else if units.len() > 1 {
        let rest = units.skip(1);
        assert forall|i: int| 0 <= i < rest.len() implies (#[trigger] rest[i]).len() > 0 && (i + 1
            < rest.len() ==> rest[i].last() != 0) by {
            assert(rest[i] == units[i + 1]);
        }
        lemma_seen_units_of_clean(rest);
        assert(seen_units(units) =~= units);
    } else {
        assert(seen_units(units) =~= units);
    }
}

/// The first unit of a type in two lists.
pub proof fn lemma_first_of_type_concat(a: Seq<Seq<u8>>, b: Seq<Seq<u8>>, t: u8)
    ensures
        first_of_type(a + b, t) == match first_of_type(a, t) {
            Some(u) => Some(u),
            None => first_of_type(b, t),
        },
    decreases a.len(),
{
    if a.len() == 0 {
        assert(a + b =~= b);
    } else {
        assert((a + b).skip(1) =~= a.skip(1) + b);
        lemma_first_of_type_concat(a.skip(1), b, t);
    }
}

/// Stripping zeros keeps the first byte of whatever is left, and leaves nothing only of zeros.
proof fn lemma_strip_zeros_first(u: Seq<u8>)
    ensures
        strip_zeros(u).len() <= u.len(),
        strip_zeros(u).len() > 0 ==> strip_zeros(u)[0] == u[0],
        strip_zeros(u).len() == 0 && u.len() > 0 ==> u[0] == 0,
    decreases u.len(),
{
    if u.len() > 0 && u.last() == 0 {
        lemma_strip_zeros_first(u.drop_last());
    }
}

/// A reader sees a unit of a type other than zero exactly if the list has one.
pub proof fn lemma_seen_units_type(units: Seq<Seq<u8>>, t: u8)
    requires
        t != 0,
    ensures
        first_of_type(seen_units(units), t) is Some == first_of_type(units, t) is Some,
    decreases units.len(),
{
    if units.len() > 0 {
        let u = units[0];
        let rest = units.skip(1);
        if units.len() == 1 {
            assert(units =~= seq![u]);
            if u.len() == 0 {
                assert(first_of_type(rest, t) is None);
            }
        } else {
            lemma_seen_units_type(rest, t);
            lemma_strip_zeros_first(u);
            let s = strip_zeros(u);
            lemma_first_of_type_concat(if_not_empty(s), seen_units(rest), t);
            if s.len() > 0 {
                assert(first_of_type(seq![s].skip(1), t) is None);
            }
        }
    }
}

/// A keyframe that came without parameter sets leaves with them: the configuration can be read
/// back from the access unit that was built for it.
pub proof fn law_access_unit_self_describing(nal: Seq<u8>, config: CodecConfigView)
    requires
        begins_with_start_code(nal),
        codec_config_of(nal) is None,
        no_marker(config.sps),
        no_marker(config.pps),
        unit_type(config.sps) == Some(nal_type::SPS),
        unit_type(config.pps) == Some(nal_type::PPS),
        config.sps.last() != 0,
        config.pps.last() != 0,
    ensures
        access_unit_of(nal, true, Some(config)) matches Ok(unit) && codec_config_of(unit) == Some(
            config,
        ),
{
    let unit = annex_b(seq![config.sps, config.pps]) + nal;
    lemma_annex_b_two(config.sps, config.pps);
    assert(unit =~= start_code() + (config.sps + (start_code() + (config.pps + nal))));
    lemma_config_in_front(config, nal);
}

/// Parameter sets in front of a stream are the ones found in it.
pub proof fn lemma_config_in_front(config: CodecConfigView, nal: Seq<u8>)
    requires
        nal.len() == 0 || begins_with_start_code(nal),
        no_marker(config.sps),
        no_marker(config.pps),
        unit_type(config.sps) == Some(nal_type::SPS),
        unit_type(config.pps) == Some(nal_type::PPS),
        config.sps.last() != 0,
        nal.len() > 0 ==> config.pps.last() != 0,
    ensures
        codec_config_of(start_code() + (config.sps + (start_code() + (config.pps + nal)))) == Some(
            config,
        ),
{
    let behind = config.pps + nal;
    let unit = start_code() + (config.sps + (start_code() + behind));
    lemma_stream_begins(config.sps + (start_code() + behind));
    lemma_stream_begins(behind);
    lemma_unit_then_start_code(config.sps, start_code() + behind);
    let more = if nal.len() == 0 {
        Seq::<Seq<u8>>::empty()
    } else {
        nal_units(nal)
    };
    if nal.len() == 0 {
        assert(behind =~= config.pps);
        lemma_first_start_code(config.pps);
        match first_start_code(config.pps) {
            Some(k) => {
                assert(start_code_at(config.pps, k));
            },
            None => {},
        }
        assert(seq![config.pps] =~= seq![config.pps] + more);
    } else {
        lemma_unit_then_start_code(config.pps, nal);
    }
    let units = seq![config.sps] + (seq![config.pps] + more);
    assert(nal_units(unit) =~= units);
    assert(units.skip(1) =~= seq![config.pps] + more);
    assert((seq![config.pps] + more)[0] == config.pps);
    reveal_with_fuel(first_of_type, 3);
}

/// A prefix of bytes without a marker has none either.
proof fn lemma_strip_zeros_no_marker(u: Seq<u8>)
    requires
        no_marker(u),
    ensures
        no_marker(strip_zeros(u)),
    decreases u.len(),
{
    if u.len() > 0 && u.last() == 0 {
        let v = u.drop_last();
        assert forall|i: int| !#[trigger] start_code_at(v, i) by {
            assert(!start_code_at(u, i));
        }
        lemma_strip_zeros_no_marker(v);
    }
}

/// No unit of a stream is empty or holds a marker.
pub proof fn lemma_units_after_start_clean(data: Seq<u8>)
    ensures
        forall|i: int|
            0 <= i < units_after_start(data).len() ==> no_marker(
                #[trigger] units_after_start(data)[i],
            ) && units_after_start(data)[i].len() > 0,
    decreases data.len(),
{
    lemma_first_start_code(data);
    match first_start_code(data) {
        None => {
            assert(no_marker(data));
        },
        Some(k) => {
            let head = data.take(k);
            let rest = data.skip(k + 3);
            assert forall|i: int| !#[trigger] start_code_at(head, i) by {
                if start_code_at(head, i) {
                    assert(start_code_at(data, i));
                }
            }
            lemma_strip_zeros_no_marker(head);
            lemma_units_after_start_clean(rest);
            let first = if_not_empty(strip_zeros(head));
            let more = units_after_start(rest);
            assert forall|i: int| 0 <= i < (first + more).len() implies no_marker(
                #[trigger] (first + more)[i],
            ) && (first + more)[i].len() > 0 by {
                if i >= first.len() {
                    assert((first + more)[i] == more[i - first.len()]);
                }
            }
        },
    }
}

/// The first unit of a type is one of the units, and has the type.
pub proof fn lemma_first_of_type(units: Seq<Seq<u8>>, t: u8)
    ensures
        first_of_type(units, t) matches Some(u) ==> units.contains(u) && unit_type(u) == Some(t),
    decreases units.len(),
{
    if units.len() > 0 && unit_type(units[0]) != Some(t) {
        lemma_first_of_type(units.skip(1), t);
        if let Some(u) = first_of_type(units, t) {
            let i = choose|i: int| 0 <= i < units.skip(1).len() && units.skip(1)[i] == u;
            assert(units[i + 1] == u);
        }
    }
}

/// A configuration that was found in a stream survives being written as a stream of its own, which
/// is how it travels to the decoder; only an SPS at the very end of the stream with zeros behind
/// it is left out.
pub proof fn law_config_survives_rewriting(stream: Seq<u8>, config: CodecConfigView)
    requires
        codec_config_of(stream) == Some(config),
        config.sps.last() != 0,
    ensures
        codec_config_of(annex_b(seq![config.sps, config.pps])) == Some(config),
{
    let units = nal_units(stream);
    lemma_first_of_type(units, nal_type::SPS);
    lemma_first_of_type(units, nal_type::PPS);
    lemma_first_start_code(stream);
    match first_start_code(stream) {
        Some(i) => {
            lemma_units_after_start_clean(stream.skip(i + 3));
        },
        None => {},
    }
    let none = Seq::<u8>::empty();
    lemma_config_in_front(config, none);
    lemma_annex_b_two(config.sps, config.pps);
    assert(config.pps + none =~= config.pps);
    assert(start_code() + (config.sps + (start_code() + config.pps)) =~= annex_b(
        seq![config.sps, config.pps],
    ));
}

/// The type of a unit is in the low five bits of its first byte, and an empty unit has none.
pub proof fn law_type_is_in_the_low_bits(unit: Seq<u8>)
    ensures
        unit.len() == 0 ==> unit_type(unit) is None,
        unit.len() > 0 ==> unit_type(unit) == Some(unit[0] & 0x1f),
{
    if unit.len() > 0 {
        let b = unit[0];
        assert(b % 32 == b & 0x1f) by (bit_vector);
    }
}

/// The first unit of a type has that type, and no unit before it does. There is none only where no
/// unit has the type.
pub proof fn law_first_of_its_type(units: Seq<Seq<u8>>, t: u8)
    ensures
        match first_of_type(units, t) {
            Some(u) => exists|i: int|
                {
                    &&& 0 <= i < units.len()
                    &&& #[trigger] units[i] == u
                    &&& u.len() > 0
                    &&& u[0] % 32 == t
                    &&& forall|j: int|
                        0 <= j < i ==> (#[trigger] units[j]).len() == 0 || units[j][0] % 32 != t
                },
            None => forall|j: int|
                0 <= j < units.len() ==> (#[trigger] units[j]).len() == 0 || units[j][0] % 32 != t,
        },
    decreases units.len(),
{
    if units.len() > 0 {
        if unit_type(units[0]) == Some(t) {
            assert(units[0][0] % 32 == t);
        } else {
            let rest = units.skip(1);
            law_first_of_its_type(rest, t);
            match first_of_type(rest, t) {
                Some(u) => {
                    let i = choose|i: int|
                        {
                            &&& 0 <= i < rest.len()
                            &&& #[trigger] rest[i] == u
                            &&& u.len() > 0
                            &&& u[0] % 32 == t
                            &&& forall|j: int|
                                0 <= j < i ==> (#[trigger] rest[j]).len() == 0 || rest[j][0] % 32
                                    != t
                        };
                    assert(units[i + 1] == u);
                    assert forall|j: int| 0 <= j < i + 1 implies (#[trigger] units[j]).len() == 0
                        || units[j][0] % 32 != t by {
                        if j > 0 {
                            assert(rest[j - 1] == units[j]);
                        }
                    }
                },
                None => {
                    assert forall|j: int| 0 <= j < units.len() implies (#[trigger] units[j]).len()
                        == 0 || units[j][0] % 32 != t by {
                        if j > 0 {
                            assert(rest[j - 1] == units[j]);
                        }
                    }
                },
            }
        }
    }
}

/// Whether `u` is the first of `units` with the type `t`.
pub open spec fn is_first_with_type(units: Seq<Seq<u8>>, u: Seq<u8>, t: int) -> bool {
    exists|i: int|
        {
            &&& 0 <= i < units.len()
            &&& #[trigger] units[i] == u
            &&& u.len() > 0
            &&& u[0] % 32 == t
            &&& forall|j: int|
                0 <= j < i ==> (#[trigger] units[j]).len() == 0 || units[j][0] % 32 != t
        }
}

/// The configuration of a stream is made of the first unit of type 7 as its sequence parameter set
/// and the first of type 8 as its picture parameter set. There is none only where one of the two
/// types does not occur.
pub proof fn law_config_is_the_first_of_each(stream: Seq<u8>)
    ensures
        ({
            let units = nal_units(stream);
            match codec_config_of(stream) {
                Some(c) => is_first_with_type(units, c.sps, 7) && is_first_with_type(
                    units,
                    c.pps,
                    8,
                ),
                None => {
                    ||| forall|j: int|
                        0 <= j < units.len() ==> (#[trigger] units[j]).len() == 0 || units[j][0]
                            % 32 != 7
                    ||| forall|j: int|
                        0 <= j < units.len() ==> (#[trigger] units[j]).len() == 0 || units[j][0]
                            % 32 != 8
                },
            }
        }),
{
    law_first_of_its_type(nal_units(stream), nal_type::SPS);
    law_first_of_its_type(nal_units(stream), nal_type::PPS);
}

/// A stream is a keyframe exactly if one of its units is of type 5.
pub proof fn law_keyframes_hold_a_refresh(stream: Seq<u8>)
    ensures
        has_idr(stream) <==> exists|i: int|
            0 <= i < nal_units(stream).len() && (#[trigger] nal_units(stream)[i]).len() > 0
                && nal_units(stream)[i][0] % 32 == 5,
{
    law_first_of_its_type(nal_units(stream), nal_type::IDR_SLICE);
}

/// A stream is written unit by unit: each behind the bytes `00 00 00 01`, and the units of one list
/// before those of the next.
pub proof fn law_written_unit_by_unit(unit: Seq<u8>, a: Seq<Seq<u8>>, b: Seq<Seq<u8>>)
    ensures
        annex_b(Seq::<Seq<u8>>::empty()) == Seq::<u8>::empty(),
        annex_b(seq![unit]) == seq![0u8, 0u8, 0u8, 1u8] + unit,
        annex_b(a + b) == annex_b(a) + annex_b(b),
{
    lemma_annex_b_concat(a, b);
    lemma_annex_b_first(seq![unit]);
    assert(seq![unit].skip(1) =~= Seq::<Seq<u8>>::empty());
    assert(annex_b(seq![unit]) =~= seq![0u8, 0u8, 0u8, 1u8] + unit);
}

/// What the decoder is given for a payload: nothing for an empty one; the two parameter sets, each
/// behind a start code, and the payload, for a keyframe without them where they are known; and the
/// payload alone otherwise.
pub proof fn law_payload_reaches_the_decoder(
    nal: Seq<u8>,
    keyframe: bool,
    config: Option<CodecConfigView>,
)
    ensures
        nal.len() == 0 <==> access_unit_of(nal, keyframe, config) is Err,
        nal.len() > 0 && config is Some && keyframe && codec_config_of(nal) is None
            ==> access_unit_of(nal, keyframe, config) == Ok::<Seq<u8>, AccessUnitError>(
            seq![0u8, 0u8, 0u8, 1u8] + config->0.sps + seq![0u8, 0u8, 0u8, 1u8] + config->0.pps
                + nal,
        ),
        nal.len() > 0 && (config is None || !keyframe || codec_config_of(nal) is Some)
            ==> access_unit_of(nal, keyframe, config) == Ok::<Seq<u8>, AccessUnitError>(nal),
{
    if config is Some {
        lemma_annex_b_two(config->0.sps, config->0.pps);
        assert(annex_b(seq![config->0.sps, config->0.pps]) + nal =~= seq![0u8, 0u8, 0u8, 1u8]
            + config->0.sps + seq![0u8, 0u8, 0u8, 1u8] + config->0.pps + nal);
    }
}

/// A configuration is seen as it is, each parameter set under its own name.
pub proof fn law_config_is_seen_as_it_is(config: CodecConfig)
    ensures
        config@.sps == config.sps@,
        config@.pps == config.pps@,
        config_view(Some(config)) == Some(config@),
        config_view(None) is None,
{
}

} // verus!
