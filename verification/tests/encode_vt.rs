//! From AVCC to Annex-B.

use rustscreen::macos_host::encode_vt::{
    avcc_has_idr, avcc_to_annex_b, to_annex_b_frame,
};
use rustscreen::protocol::nal::{self, extract_codec_config, is_keyframe, iter_nal_units};

fn avcc_unit(nal: &[u8]) -> Vec<u8> {
    let mut v = (nal.len() as u32).to_be_bytes().to_vec();
    v.extend_from_slice(nal);
    v
}

#[test]
fn avcc_empty_input_yields_empty_output() {
    assert!(avcc_to_annex_b(&[], 4).is_empty());
}

#[test]
fn avcc_invalid_length_size_returns_empty_without_hanging() {
    assert!(avcc_to_annex_b(&[1, 2, 3, 4, 5], 0).is_empty());
    assert!(avcc_to_annex_b(&[1, 2, 3, 4, 5], 5).is_empty());
    assert!(avcc_to_annex_b(&[1, 2, 3, 4, 5], usize::MAX).is_empty());
}

#[test]
fn avcc_single_nal_gets_four_byte_start_code() {
    let input = [0, 0, 0, 5, 0x67, 0x42, 0x1F, 0x00, 0x01];
    let out = avcc_to_annex_b(&input, 4);
    assert_eq!(out, vec![0, 0, 0, 1, 0x67, 0x42, 0x1F, 0x00, 0x01]);
}

#[test]
fn avcc_multi_nal_converts_in_order() {
    let mut input = Vec::new();
    input.extend_from_slice(&avcc_unit(&[0x67, 0x42, 0x1F]));
    input.extend_from_slice(&avcc_unit(&[0x68, 0xCE]));

    let out = avcc_to_annex_b(&input, 4);

    let mut expected = Vec::new();
    expected.extend_from_slice(&[0, 0, 0, 1, 0x67, 0x42, 0x1F]);
    expected.extend_from_slice(&[0, 0, 0, 1, 0x68, 0xCE]);
    assert_eq!(out, expected);

    let units = iter_nal_units(&out).collect();
    assert_eq!(units, vec![&[0x67, 0x42, 0x1F][..], &[0x68, 0xCE][..]]);
}

#[test]
fn avcc_length_overrun_is_bounded_no_panic() {
    let input = [0, 0, 0, 10, 0xAA, 0xBB, 0xCC];
    let out = avcc_to_annex_b(&input, 4);
    assert!(out.is_empty(), "overrunning prefix must yield no output");
}

#[test]
fn avcc_partial_trailing_prefix_is_ignored() {
    let mut input = avcc_unit(&[0x67, 0x01]);
    input.extend_from_slice(&[0x00, 0x00]);
    let out = avcc_to_annex_b(&input, 4);
    assert_eq!(out, vec![0, 0, 0, 1, 0x67, 0x01]);
}

#[test]
fn avcc_round_trips_through_extract_codec_config() {
    let mut input = Vec::new();
    input.extend_from_slice(&avcc_unit(&[0x67, 0x42, 0x1F]));
    input.extend_from_slice(&avcc_unit(&[0x68, 0xCE]));
    input.extend_from_slice(&avcc_unit(&[0x65, 0x88, 0x99]));

    let out = avcc_to_annex_b(&input, 4);

    let cfg = extract_codec_config(&out).expect("config recovered from Annex-B");
    assert_eq!(cfg.sps, vec![0x67, 0x42, 0x1F]);
    assert_eq!(cfg.pps, vec![0x68, 0xCE]);
    assert!(is_keyframe(&out));
}

#[test]
fn avcc_two_byte_length_size_converts() {
    let input = [0x00, 0x03, 0x67, 0x42, 0x1F];
    let out = avcc_to_annex_b(&input, 2);
    assert_eq!(out, vec![0, 0, 0, 1, 0x67, 0x42, 0x1F]);
}

#[test]
fn avcc_one_byte_length_size_converts() {
    let input = [0x03, 0x67, 0x42, 0x1F];
    let out = avcc_to_annex_b(&input, 1);
    assert_eq!(out, vec![0, 0, 0, 1, 0x67, 0x42, 0x1F]);
}

#[test]
fn avcc_three_byte_length_size_converts() {
    let input = [0x00, 0x00, 0x03, 0x67, 0x42, 0x1F];
    let out = avcc_to_annex_b(&input, 3);
    assert_eq!(out, vec![0, 0, 0, 1, 0x67, 0x42, 0x1F]);
}

#[test]
fn avcc_zero_length_unit_is_skipped_not_fatal() {
    let mut input = vec![0, 0, 0, 0];
    input.extend_from_slice(&avcc_unit(&[0xAA, 0xBB, 0xCC]));
    let out = avcc_to_annex_b(&input, 4);
    assert_eq!(out, vec![0, 0, 0, 1, 0xAA, 0xBB, 0xCC]);
}

#[test]
fn has_idr_true_when_idr_present_among_units() {
    let mut input = Vec::new();
    input.extend_from_slice(&avcc_unit(&[0x67, 0x42, 0x1F]));
    input.extend_from_slice(&avcc_unit(&[0x68, 0xCE]));
    input.extend_from_slice(&avcc_unit(&[0x65, 0x88, 0x99]));
    assert!(avcc_has_idr(&input, 4));
}

#[test]
fn has_idr_false_for_delta_only_unit() {
    let input = avcc_unit(&[0x61, 0x88]);
    assert!(!avcc_has_idr(&input, 4));
}

#[test]
fn has_idr_matches_is_keyframe_on_the_converted_stream() {
    let mut multi = Vec::new();
    multi.extend_from_slice(&avcc_unit(&[0x67, 0x42, 0x1F]));
    multi.extend_from_slice(&avcc_unit(&[0x65, 0x88]));
    let mut zero_len_then_idr = vec![0, 0, 0, 0];
    zero_len_then_idr.extend_from_slice(&avcc_unit(&[0x65, 0xAA]));
    let mut truncated = avcc_unit(&[0x61, 0x01]);
    truncated.extend_from_slice(&[0, 0, 0, 9, 0x65]);
    let narrow = [0x02, 0x65, 0xAA];
    for (avcc, nal_len) in [
        (&multi[..], 4),
        (&zero_len_then_idr[..], 4),
        (&truncated[..], 4),
        (&narrow[..], 1),
        (&[][..], 4),
    ] {
        assert_eq!(
            avcc_has_idr(avcc, nal_len),
            is_keyframe(&avcc_to_annex_b(avcc, nal_len)),
            "probe disagrees with convert-then-check for {avcc:02X?} (prefix {nal_len})"
        );
    }
}

#[test]
fn has_idr_invalid_length_size_is_false_without_hanging() {
    assert!(!avcc_has_idr(&[1, 2, 3, 4, 5], 0));
    assert!(!avcc_has_idr(&[1, 2, 3, 4, 5], 5));
}

#[test]
fn annex_b_keyframe_injects_sps_pps() {
    let sps = [0x67, 0x42, 0x1F];
    let pps = [0x68, 0xCE];
    let picture = avcc_unit(&[0x65, 0xAA, 0xBB]);

    let out = to_annex_b_frame(&picture, 4, true, &sps, &pps);

    let cfg = extract_codec_config(&out).expect("injected config present");
    assert_eq!(cfg.sps, sps.to_vec());
    assert_eq!(cfg.pps, pps.to_vec());

    let units = iter_nal_units(&out).collect();
    assert_eq!(units.len(), 3);
    assert_eq!(nal::nal_unit_type(units[0]), Some(nal::nal_type::SPS));
    assert_eq!(nal::nal_unit_type(units[1]), Some(nal::nal_type::PPS));
    assert_eq!(nal::nal_unit_type(units[2]), Some(nal::nal_type::IDR_SLICE));
}

#[test]
fn annex_b_non_keyframe_does_not_inject() {
    let sps = [0x67, 0x42, 0x1F];
    let pps = [0x68, 0xCE];
    let picture = avcc_unit(&[0x61, 0xCC]);

    let out = to_annex_b_frame(&picture, 4, false, &sps, &pps);

    assert_eq!(out, vec![0, 0, 0, 1, 0x61, 0xCC]);
    assert_eq!(extract_codec_config(&out), None);
    let units = iter_nal_units(&out).collect();
    assert_eq!(units.len(), 1);
    assert_eq!(
        nal::nal_unit_type(units[0]),
        Some(nal::nal_type::NON_IDR_SLICE)
    );
}

#[test]
fn annex_b_keyframe_with_multi_nal_picture_preserves_order() {
    let sps = [0x67, 0x01];
    let pps = [0x68, 0x01];
    let mut picture = avcc_unit(&[0x65, 0x10]);
    picture.extend_from_slice(&avcc_unit(&[0x65, 0x20]));

    let out = to_annex_b_frame(&picture, 4, true, &sps, &pps);

    let units = iter_nal_units(&out).collect();
    assert_eq!(units.len(), 4);
    assert_eq!(units[0], &sps[..]);
    assert_eq!(units[1], &pps[..]);
    assert_eq!(units[2], &[0x65, 0x10][..]);
    assert_eq!(units[3], &[0x65, 0x20][..]);
}

#[test]
fn the_probe_and_the_converted_stream_can_differ_on_an_embedded_start_code() {
    // A delta slice that holds a start code followed by the header of an IDR slice.
    let input = avcc_unit(&[0x61, 0x00, 0x00, 0x01, 0x65]);
    assert!(!avcc_has_idr(&input, 4));
    assert!(is_keyframe(&avcc_to_annex_b(&input, 4)));
}
