//! Bridging the encoder's AVCC framing to the Annex-B framing that the rest of the system uses.
//!
//! The hardware encoder emits NAL units behind a big-endian length whose width is 1 to 4 bytes,
//! and keeps the parameter sets out of band. Everything else here is Annex-B with the parameter
//! sets in band on keyframes.

use vstd::prelude::*;
use vstd::slice::slice_subrange;
use crate::protocol::nal::{nal_type, nal_unit_type, push_unit};
use crate::protocol::nal::{annex_b, first_of_type, has_idr, no_marker, unit_bytes};
use crate::protocol::nal::{codec_config_of, start_code, unit_type};
use crate::protocol::nal::{law_split_of_annex_b, lemma_annex_b_concat, lemma_annex_b_first};
use crate::protocol::nal::{lemma_annex_b_two, lemma_config_in_front, lemma_seen_units_type};
use crate::protocol::nal::{lemma_stream_begins, CodecConfigView};

verus! {

/// The number that `bytes` stand for, most significant first.
pub open spec fn be_number(bytes: Seq<u8>) -> int
    decreases bytes.len(),
{
    if bytes.len() == 0 {
        0
    } else {
        be_number(bytes.drop_last()) * 0x100 + bytes.last()
    }
}

/// The units of an AVCC buffer whose length prefixes are `width` bytes wide. A unit of length
/// zero is skipped; a prefix that claims more than remains ends the walk; a width outside 1 to 4
/// walks nothing.
pub open spec fn avcc_units(avcc: Seq<u8>, width: int) -> Seq<Seq<u8>>
    decreases avcc.len(),
{
    if width < 1 || width > 4 || avcc.len() < width {
        Seq::empty()
    } else {
        let len = be_number(avcc.take(width));
        let rest = avcc.skip(width);
        if len <= 0 {
            avcc_units(rest, width)
        } else if len > rest.len() {
            Seq::empty()
        } else {
            seq![rest.take(len)] + avcc_units(rest.skip(len), width)
        }
    }
}

/// The big-endian number in `avcc[at..at + width]`.
fn length_prefix(avcc: &[u8], at: usize, width: usize) -> (len: usize)
    requires
        1 <= width <= 4,
        at + width <= avcc@.len(),
    ensures
        len == be_number(avcc@.subrange(at as int, at + width)),
        len < 0x1_0000_0000,
{
    let size: usize = avcc.len();
    let mut len: usize = 0;
    let mut k: usize = 0;
    while k < width
        invariant
            1 <= width <= 4,
            at + width <= size,
            size == avcc@.len(),
            k <= width,
            len == be_number(avcc@.subrange(at as int, at + k)),
            k == 0 ==> len == 0,
            k == 1 ==> len < 0x100,
            k == 2 ==> len < 0x1_0000,
            k == 3 ==> len < 0x100_0000,
            k == 4 ==> len < 0x1_0000_0000,
        decreases width - k,
    {
        proof {
            assert(avcc@.subrange(at as int, at + k + 1).drop_last() =~= avcc@.subrange(
                at as int,
                at + k,
            ));
        }
        len = len * 0x100 + avcc[at + k] as usize;
        k = k + 1;
    }
    len
}

/// Walk the units of an AVCC buffer. The single home of the bounds-checked walk: the converter and
/// the keyframe probe both ride it.
fn avcc_nals<'a>(avcc: &'a [u8], nal_length_size: usize) -> (units: Vec<&'a [u8]>)
    ensures
        unit_bytes(units@) == avcc_units(avcc@, nal_length_size as int),
{
    let mut units: Vec<&'a [u8]> = Vec::new();
    if nal_length_size < 1 || nal_length_size > 4 {
        proof {
            assert(unit_bytes(units@) =~= Seq::empty());
        }
        return units;
    }
    let width: usize = nal_length_size;
    let mut i: usize = 0;
    proof {
        assert(avcc@.skip(0) =~= avcc@);
        assert(unit_bytes(units@) + avcc_units(avcc@, width as int) =~= avcc_units(
            avcc@,
            width as int,
        ));
    }
    while avcc.len() - i >= width
        invariant_except_break
            i <= avcc@.len(),
            1 <= width <= 4,
            avcc_units(avcc@, width as int) == unit_bytes(units@) + avcc_units(
                avcc@.skip(i as int),
                width as int,
            ),
        ensures
            avcc_units(avcc@, width as int) == unit_bytes(units@),
        decreases avcc.len() - i,
    {
        let ghost had = units@;
        let ghost here = avcc@.skip(i as int);
        let len: usize = length_prefix(avcc, i, width);
        proof {
            assert(here.take(width as int) =~= avcc@.subrange(i as int, i + width));
            assert(here.skip(width as int) =~= avcc@.skip(i + width));
        }
        i = i + width;
        if len == 0 {
            continue;
        }
        if len > avcc.len() - i {
            proof {
                assert(unit_bytes(units@) + Seq::<Seq<u8>>::empty() =~= unit_bytes(units@));
            }
            break;
        }
        let unit: &'a [u8] = slice_subrange(avcc, i, i + len);
        proof {
            assert(avcc@.skip(i as int).take(len as int) =~= unit@);
            assert(avcc@.skip(i as int).skip(len as int) =~= avcc@.skip(i + len));
        }
        units.push(unit);
        proof {
            assert(unit_bytes(units@) =~= unit_bytes(had).push(unit@));
            assert(unit_bytes(had) + (seq![unit@] + avcc_units(avcc@.skip(i + len), width as int))
                =~= unit_bytes(units@) + avcc_units(avcc@.skip(i + len), width as int));
        }
        i = i + len;
    }
    units
}

/// Append the Annex-B form of an AVCC buffer to `out`.
fn append_avcc_as_annex_b(out: &mut Vec<u8>, avcc: &[u8], nal_length_size: usize)
    ensures
        final(out)@ == old(out)@ + annex_b(avcc_units(avcc@, nal_length_size as int)),
{
    let units = avcc_nals(avcc, nal_length_size);
    let ghost all = unit_bytes(units@);
    let mut i: usize = 0;
    proof {
        assert(out@ =~= old(out)@ + annex_b(all.take(0)));
    }
    while i < units.len()
        invariant
            i <= units@.len(),
            all == unit_bytes(units@),
            out@ == old(out)@ + annex_b(all.take(i as int)),
        decreases units.len() - i,
    {
        push_unit(out, units[i]);
        proof {
            assert(all.take(i + 1).drop_last() =~= all.take(i as int));
            assert(out@ =~= old(out)@ + annex_b(all.take(i + 1)));
        }
        i = i + 1;
    }
    proof {
        assert(all.take(i as int) =~= all);
    }
}

/// Convert a length-prefixed AVCC buffer into Annex-B.
pub fn avcc_to_annex_b(avcc: &[u8], nal_length_size: usize) -> (out: Vec<u8>)
    ensures
        out@ == annex_b(avcc_units(avcc@, nal_length_size as int)),
{
    let mut out: Vec<u8> = Vec::new();
    append_avcc_as_annex_b(&mut out, avcc, nal_length_size);
    proof {
        assert(out@ =~= annex_b(avcc_units(avcc@, nal_length_size as int)));
    }
    out
}

/// Whether an AVCC access unit contains an IDR slice, without converting it.
pub fn avcc_has_idr(avcc: &[u8], nal_length_size: usize) -> (r: bool)
    ensures
        r == first_of_type(
            avcc_units(avcc@, nal_length_size as int),
            nal_type::IDR_SLICE,
        ) is Some,
{
    let units = avcc_nals(avcc, nal_length_size);
    let ghost all = unit_bytes(units@);
    let mut i: usize = 0;
    proof {
        assert(all.skip(0) =~= all);
    }
    while i < units.len()
        invariant
            i <= units@.len(),
            all == unit_bytes(units@),
            all == avcc_units(avcc@, nal_length_size as int),
            first_of_type(all, nal_type::IDR_SLICE) == first_of_type(
                all.skip(i as int),
                nal_type::IDR_SLICE,
            ),
        decreases units.len() - i,
    {
        proof {
            assert(all.skip(i as int)[0] == units@[i as int]@);
        }
        if let Some(t) = nal_unit_type(units[i]) {
            if t == nal_type::IDR_SLICE {
                return true;
            }
        }
        proof {
            assert(all.skip(i as int).skip(1) =~= all.skip(i + 1));
        }
        i = i + 1;
    }
    false
}

/// Convert one AVCC picture to Annex-B and, on keyframes, put the out-of-band SPS and PPS in
/// front.
pub fn to_annex_b_frame(
    avcc: &[u8],
    nal_length_size: usize,
    is_keyframe: bool,
    sps: &[u8],
    pps: &[u8],
) -> (out: Vec<u8>)
    ensures
        out@ == annex_b(
            (if is_keyframe {
                seq![sps@, pps@]
            } else {
                Seq::empty()
            }) + avcc_units(avcc@, nal_length_size as int),
        ),
{
    let mut out: Vec<u8> = Vec::new();
    let ghost units = avcc_units(avcc@, nal_length_size as int);
    if is_keyframe {
        push_unit(&mut out, sps);
        push_unit(&mut out, pps);
        proof {
            lemma_annex_b_two(sps@, pps@);
            assert(out@ =~= annex_b(seq![sps@, pps@]));
            lemma_annex_b_concat(seq![sps@, pps@], units);
        }
    } else {
        proof {
            assert(Seq::<Seq<u8>>::empty() + units =~= units);
            assert(out@ + annex_b(units) =~= annex_b(units));
        }
    }
    append_avcc_as_annex_b(&mut out, avcc, nal_length_size);
    out
}

/// The keyframe probe agrees with converting the buffer and looking for an IDR slice there.
pub proof fn law_probe_agrees(avcc: Seq<u8>, width: int)
    requires
        forall|i: int|
            0 <= i < avcc_units(avcc, width).len() ==> no_marker(#[trigger] avcc_units(avcc, width)[i]),
    ensures
        first_of_type(avcc_units(avcc, width), nal_type::IDR_SLICE) is Some == has_idr(
            annex_b(avcc_units(avcc, width)),
        ),
{
    let units = avcc_units(avcc, width);
    law_split_of_annex_b(units);
    lemma_seen_units_type(units, nal_type::IDR_SLICE);
}

/// The parameter sets that a keyframe was given can be read back from it, whatever the picture
/// holds.
pub proof fn law_keyframe_carries_config(config: CodecConfigView, picture: Seq<Seq<u8>>)
    requires
        no_marker(config.sps),
        no_marker(config.pps),
        unit_type(config.sps) == Some(nal_type::SPS),
        unit_type(config.pps) == Some(nal_type::PPS),
        config.sps.last() != 0,
        picture.len() > 0 ==> config.pps.last() != 0,
    ensures
        codec_config_of(annex_b(seq![config.sps, config.pps] + picture)) == Some(config),
{
    let tail = annex_b(picture);
    lemma_annex_b_concat(seq![config.sps, config.pps], picture);
    lemma_annex_b_two(config.sps, config.pps);
    if picture.len() > 0 {
        lemma_annex_b_first(picture);
        let behind = picture[0] + annex_b(picture.skip(1));
        assert(tail =~= start_code() + behind);
        lemma_stream_begins(behind);
    }
    lemma_config_in_front(config, tail);
    assert(annex_b(seq![config.sps, config.pps]) + tail =~= start_code() + (config.sps + (
    start_code() + (config.pps + tail))));
}

/// The length prefix of a unit, `width` bytes wide: the digits of `len` to the base 256, the
/// highest one first.
pub open spec fn avcc_prefix(len: int, width: int) -> Seq<u8> {
    if width == 1 {
        seq![(len % 256) as u8]
    } else if width == 2 {
        seq![((len / 256) % 256) as u8, (len % 256) as u8]
    } else if width == 3 {
        seq![((len / 65536) % 256) as u8, ((len / 256) % 256) as u8, (len % 256) as u8]
    } else {
        seq![
            (len / 16777216) as u8,
            ((len / 65536) % 256) as u8,
            ((len / 256) % 256) as u8,
            (len % 256) as u8,
        ]
    }
}

/// How many lengths a prefix of `width` bytes can tell apart.
pub open spec fn avcc_room(width: int) -> int {
    if width == 1 {
        256
    } else if width == 2 {
        65536
    } else if width == 3 {
        16777216
    } else {
        4294967296
    }
}

/// An AVCC buffer that holds `units`: each one behind its length.
pub open spec fn avcc_of(units: Seq<Seq<u8>>, width: int) -> Seq<u8>
    decreases units.len(),
{
    if units.len() == 0 {
        Seq::empty()
    } else {
        avcc_prefix(units[0].len() as int, width) + units[0] + avcc_of(units.skip(1), width)
    }
}

/// Reading a length prefix gives the length that was written.
proof fn lemma_prefix_is_read_back(len: int, width: int)
    requires
        1 <= width <= 4,
        0 <= len < avcc_room(width),
    ensures
        avcc_prefix(len, width).len() == width,
        be_number(avcc_prefix(len, width)) == len,
{
    let p = avcc_prefix(len, width);
    reveal_with_fuel(be_number, 5);
    if width == 1 {
        assert(p.drop_last() =~= Seq::empty());
    } else if width == 2 {
        assert(p.drop_last() =~= seq![p[0]]);
        assert(p.drop_last().drop_last() =~= Seq::empty());
    } else if width == 3 {
        assert(p.drop_last() =~= seq![p[0], p[1]]);
        assert(p.drop_last().drop_last() =~= seq![p[0]]);
        assert(p.drop_last().drop_last().drop_last() =~= Seq::empty());
    } else {
        assert(p.drop_last() =~= seq![p[0], p[1], p[2]]);
        assert(p.drop_last().drop_last() =~= seq![p[0], p[1]]);
        assert(p.drop_last().drop_last().drop_last() =~= seq![p[0]]);
        assert(p.drop_last().drop_last().drop_last().drop_last() =~= Seq::empty());
    }
}

/// Whatever was written in full comes back, all of it and in its order, but for units that are
/// empty, also if the buffer goes on with a stray piece of a prefix or with the beginning of a
/// unit that was cut off.
pub proof fn law_walk_ends_at_a_cut(units: Seq<Seq<u8>>, width: int, cut: Seq<u8>)
    requires
        1 <= width <= 4,
        forall|i: int| 0 <= i < units.len() ==> (#[trigger] units[i]).len() < avcc_room(width),
        cut.len() < width || exists|len: int|
            #![trigger avcc_prefix(len, width)]
            cut.len() - width < len < avcc_room(width) && cut.take(width) == avcc_prefix(
                len,
                width,
            ),
    ensures
        avcc_units(avcc_of(units, width) + cut, width) == units.filter(
            |unit: Seq<u8>| unit.len() > 0,
        ),
        (forall|i: int| 0 <= i < units.len() ==> (#[trigger] units[i]).len() > 0) ==> avcc_units(
            avcc_of(units, width) + cut,
            width,
        ) == units,
    decreases units.len(),
{
    let avcc = avcc_of(units, width) + cut;
    let whole = |unit: Seq<u8>| unit.len() > 0;
    if units.len() == 0 {
        assert(avcc =~= cut);
        assert(units.filter(whole) =~= units) by {
            reveal(Seq::filter);
        }
        if cut.len() >= width {
            let len = choose|len: int|
                #![trigger avcc_prefix(len, width)]
                cut.len() - width < len < avcc_room(width) && cut.take(width) == avcc_prefix(
                    len,
                    width,
                );
            lemma_prefix_is_read_back(len, width);
        }
    } else {
        let unit = units[0];
        let others = units.skip(1);
        let prefix = avcc_prefix(unit.len() as int, width);
        let behind = avcc_of(others, width) + cut;
        lemma_prefix_is_read_back(unit.len() as int, width);
        assert forall|i: int| 0 <= i < others.len() implies (#[trigger] others[i]).len()
            < avcc_room(width) by {
            assert(others[i] == units[i + 1]);
        }
        law_walk_ends_at_a_cut(others, width, cut);
        assert(avcc =~= prefix + (unit + behind));
        assert(avcc.take(width) =~= prefix);
        assert(avcc.skip(width) =~= unit + behind);
        assert((unit + behind).take(unit.len() as int) =~= unit);
        assert((unit + behind).skip(unit.len() as int) =~= behind);
        assert(units =~= seq![unit] + others);
        Seq::filter_distributes_over_add(seq![unit], others, whole);
        assert(seq![unit].filter(whole) == if whole(unit) {
            seq![unit]
        } else {
            Seq::empty()
        }) by {
            reveal_with_fuel(Seq::filter, 2);
            assert(seq![unit].drop_last() =~= Seq::empty());
            assert(seq![unit] =~= Seq::<Seq<u8>>::empty().push(unit));
        }
        if unit.len() == 0 {
            assert(unit + behind =~= behind);
            assert(Seq::<Seq<u8>>::empty() + others.filter(whole) =~= others.filter(whole));
        }
        if forall|i: int| 0 <= i < units.len() ==> (#[trigger] units[i]).len() > 0 {
            assert forall|i: int| 0 <= i < others.len() implies (#[trigger] others[i]).len()
                > 0 by {
                assert(others[i] == units[i + 1]);
            }
        }
    }
}

/// The walk undoes the framing: for every width and all units whose lengths fit into a prefix of
/// that width, writing each unit behind its length and walking the buffer gives back exactly those
/// units, in their order.
pub proof fn law_walk_inverts_framing(units: Seq<Seq<u8>>, width: int)
    requires
        1 <= width <= 4,
        forall|i: int|
            0 <= i < units.len() ==> 0 < (#[trigger] units[i]).len() < avcc_room(width),
    ensures
        avcc_units(avcc_of(units, width), width) == units,
{
    law_walk_ends_at_a_cut(units, width, Seq::empty());
    assert(avcc_of(units, width) + Seq::<u8>::empty() =~= avcc_of(units, width));
}

/// A width that no encoder uses holds no units.
pub proof fn law_other_widths_hold_nothing(avcc: Seq<u8>, width: int)
    requires
        width < 1 || width > 4,
    ensures
        avcc_units(avcc, width) == Seq::<Seq<u8>>::empty(),
{
}

} // verus!
