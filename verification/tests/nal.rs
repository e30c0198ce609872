//! Annex-B parsing.

use rustscreen::protocol::nal::{
    extract_codec_config, is_keyframe, iter_nal_units, nal_type, nal_unit_type, sps_dimensions,
    to_annex_b_access_unit, AccessUnitError, CodecConfig,
};

const SC3: [u8; 3] = [0, 0, 1];
const SC4: [u8; 4] = [0, 0, 0, 1];

#[test]
fn splits_units_with_four_byte_start_codes() {
    let mut s = Vec::new();
    s.extend_from_slice(&SC4);
    s.extend_from_slice(&[0x67, 0xAA]);
    s.extend_from_slice(&SC4);
    s.extend_from_slice(&[0x68, 0xBB]);
    s.extend_from_slice(&SC4);
    s.extend_from_slice(&[0x65, 0xCC]);

    let units = iter_nal_units(&s).collect();
    assert_eq!(
        units,
        vec![&[0x67, 0xAA][..], &[0x68, 0xBB][..], &[0x65, 0xCC][..]]
    );
}

#[test]
fn splits_units_with_three_byte_start_codes() {
    let mut s = Vec::new();
    s.extend_from_slice(&SC3);
    s.extend_from_slice(&[0x67, 0x11]);
    s.extend_from_slice(&SC3);
    s.extend_from_slice(&[0x68, 0x22]);

    let units = iter_nal_units(&s).collect();
    assert_eq!(units, vec![&[0x67, 0x11][..], &[0x68, 0x22][..]]);
}

#[test]
fn handles_mixed_start_code_lengths() {
    let mut s = Vec::new();
    s.extend_from_slice(&SC4);
    s.extend_from_slice(&[0x67]);
    s.extend_from_slice(&SC3);
    s.extend_from_slice(&[0x68]);

    let units = iter_nal_units(&s).collect();
    assert_eq!(units, vec![&[0x67][..], &[0x68][..]]);
}

#[test]
fn ignores_leading_bytes_before_first_start_code() {
    let mut s = vec![0xDE, 0xAD];
    s.extend_from_slice(&SC4);
    s.extend_from_slice(&[0x67, 0x01]);

    let units = iter_nal_units(&s).collect();
    assert_eq!(units, vec![&[0x67, 0x01][..]]);
}

#[test]
fn skips_empty_units_between_back_to_back_start_codes() {
    let mut s = Vec::new();
    s.extend_from_slice(&SC4);
    s.extend_from_slice(&SC4);
    s.extend_from_slice(&[0x67, 0x09]);

    let units = iter_nal_units(&s).collect();
    assert_eq!(units, vec![&[0x67, 0x09][..]]);
}

#[test]
fn empty_stream_yields_nothing() {
    let units = iter_nal_units(&[]).collect();
    assert!(units.is_empty());
}

#[test]
fn stream_without_start_code_yields_nothing() {
    let units = iter_nal_units(&[0x01, 0x02, 0x03]).collect();
    assert!(units.is_empty());
}

#[test]
fn nal_unit_type_reads_low_five_bits() {
    assert_eq!(nal_unit_type(&[0x67]), Some(nal_type::SPS));
    assert_eq!(nal_unit_type(&[0x68]), Some(nal_type::PPS));
    assert_eq!(nal_unit_type(&[0x65]), Some(nal_type::IDR_SLICE));
    assert_eq!(nal_unit_type(&[0x61]), Some(nal_type::NON_IDR_SLICE));
}

#[test]
fn nal_unit_type_of_empty_is_none() {
    assert_eq!(nal_unit_type(&[]), None);
}

#[test]
fn extracts_sps_and_pps() {
    let mut s = Vec::new();
    s.extend_from_slice(&SC4);
    s.extend_from_slice(&[0x67, 0x42, 0x1F]);
    s.extend_from_slice(&SC4);
    s.extend_from_slice(&[0x68, 0xCE]);
    s.extend_from_slice(&SC4);
    s.extend_from_slice(&[0x65, 0x88]);

    let cfg = extract_codec_config(&s).expect("config present");
    assert_eq!(cfg.sps, vec![0x67, 0x42, 0x1F]);
    assert_eq!(cfg.pps, vec![0x68, 0xCE]);
}

#[test]
fn nal_excludes_trailing_zero_bytes_belonging_to_next_start_code() {
    let mut s = Vec::new();
    s.extend_from_slice(&SC3);
    s.extend_from_slice(&[0x67, 0x42, 0x00]);
    s.extend_from_slice(&SC4);
    s.extend_from_slice(&[0x68, 0xCE]);

    let units = iter_nal_units(&s).collect();
    assert_eq!(units, vec![&[0x67, 0x42][..], &[0x68, 0xCE][..]]);
}

#[test]
fn single_zero_byte_nal_is_dropped_documented_edge() {
    let mut s = Vec::new();
    s.extend_from_slice(&SC3);
    s.extend_from_slice(&[0x00]);
    s.extend_from_slice(&SC3);
    s.extend_from_slice(&[0x68, 0xCE]);

    let units = iter_nal_units(&s).collect();
    assert_eq!(units, vec![&[0x68, 0xCE][..]]);
}

#[test]
fn extract_uses_first_sps_and_pps_when_repeated() {
    let mut s = Vec::new();
    s.extend_from_slice(&SC4);
    s.extend_from_slice(&[0x67, 0x01]);
    s.extend_from_slice(&SC4);
    s.extend_from_slice(&[0x68, 0x01]);
    s.extend_from_slice(&SC4);
    s.extend_from_slice(&[0x67, 0x02]);

    let cfg = extract_codec_config(&s).expect("config present");
    assert_eq!(cfg.sps, vec![0x67, 0x01]);
    assert_eq!(cfg.pps, vec![0x68, 0x01]);
}

#[test]
fn extract_returns_none_when_sps_missing() {
    let mut s = Vec::new();
    s.extend_from_slice(&SC4);
    s.extend_from_slice(&[0x68, 0x01]);
    assert_eq!(extract_codec_config(&s), None);
}

#[test]
fn extract_returns_none_when_pps_missing() {
    let mut s = Vec::new();
    s.extend_from_slice(&SC4);
    s.extend_from_slice(&[0x67, 0x01]);
    assert_eq!(extract_codec_config(&s), None);
}

#[test]
fn is_keyframe_true_when_idr_present() {
    let mut s = Vec::new();
    s.extend_from_slice(&SC4);
    s.extend_from_slice(&[0x67, 0x01]);
    s.extend_from_slice(&SC4);
    s.extend_from_slice(&[0x65, 0x88]);
    assert!(is_keyframe(&s));
}

#[test]
fn is_keyframe_false_without_idr() {
    let mut s = Vec::new();
    s.extend_from_slice(&SC4);
    s.extend_from_slice(&[0x61, 0x88]);
    assert!(!is_keyframe(&s));
}

fn config() -> CodecConfig {
    CodecConfig { sps: vec![0x67, 0x42], pps: vec![0x68, 0xCE] }
}

fn unit(bytes: &[u8]) -> Vec<u8> {
    [&SC4[..], bytes].concat()
}

#[test]
fn an_access_unit_without_payload_is_rejected() {
    assert_eq!(to_annex_b_access_unit(&[], true, Some(&config())), Err(AccessUnitError::EmptyPayload));
    assert_eq!(to_annex_b_access_unit(&[], false, Some(&config())), Err(AccessUnitError::EmptyPayload));
}

#[test]
fn a_bare_keyframe_gets_the_parameter_sets() {
    let out = to_annex_b_access_unit(&unit(&[0x65, 0x88]), true, Some(&config())).unwrap();
    let expected = [unit(&[0x67, 0x42]), unit(&[0x68, 0xCE]), unit(&[0x65, 0x88])].concat();
    assert_eq!(out, expected);
    assert_eq!(extract_codec_config(&out), Some(config()));
}

#[test]
fn a_delta_unit_and_a_complete_keyframe_stay_as_they_are() {
    let delta = unit(&[0x61, 0x01]);
    assert_eq!(to_annex_b_access_unit(&delta, false, Some(&config())).unwrap(), delta);
    let whole = [unit(&[0x67, 0x01]), unit(&[0x68, 0x01]), unit(&[0x65, 0x88])].concat();
    assert_eq!(to_annex_b_access_unit(&whole, true, Some(&config())).unwrap(), whole);
}

/// Bits, most significant first.
#[derive(Default)]
struct Bits(Vec<bool>);

impl Bits {
    fn fixed(mut self, value: u32, n: u32) -> Self {
        for k in (0..n).rev() {
            self.0.push(value >> k & 1 == 1);
        }
        self
    }

    fn variable(self, value: u32) -> Self {
        let n = 32 - (value + 1).leading_zeros();
        self.fixed(0, n - 1).fixed(value + 1, n)
    }

    fn variables(self, values: &[u32]) -> Self {
        values.iter().fold(self, |bits, v| bits.variable(*v))
    }

    /// The parameter set, with what keeps a start code from appearing.
    fn unit(mut self) -> Vec<u8> {
        self.0.push(true);
        while self.0.len() % 8 != 0 {
            self.0.push(false);
        }
        let mut out = vec![0x67];
        for byte in self.0.chunks(8) {
            let b = byte.iter().fold(0u8, |b, bit| b * 2 + u8::from(*bit));
            if b <= 3 && out.len() > 2 && out.ends_with(&[0, 0]) {
                out.push(3);
            }
            out.push(b);
        }
        out
    }
}

#[test]
fn a_parameter_set_states_the_picture_size() {
    let sps = [
        0x67, 0x64, 0x00, 0x1F, 0xAC, 0xD9, 0x40, 0x50, 0x05, 0xBB, 0x01, 0x6A, 0x02, 0x02, 0x02,
        0x80,
    ];
    assert_eq!(sps_dimensions(&sps), Some((1280, 720)));
    let sps = [
        0x67, 0x64, 0x00, 0x28, 0xAC, 0xD9, 0x40, 0x78, 0x02, 0x27, 0xE5, 0xC0, 0x44, 0x00, 0x00,
        0x03, 0x00, 0x04, 0x00, 0x00, 0x03, 0x00, 0xF0, 0x3C, 0x60, 0xC6, 0x58,
    ];
    assert_eq!(sps_dimensions(&sps), Some((1920, 1088)), "the coded size, a multiple of 16");
    assert_eq!(
        sps_dimensions(&[0x67, 0x42, 0x00, 0x1F, 0x95, 0xA8, 0x14, 0x01, 0x6E, 0x40]),
        Some((1280, 720))
    );
}

#[test]
fn a_picture_made_of_fields_is_twice_as_high() {
    let head = || Bits::default().fixed(66, 8).fixed(0, 8).fixed(30, 8);
    let frames = head().variables(&[0, 0, 2, 1]).fixed(0, 1).variables(&[149, 33]).fixed(1, 1);
    assert_eq!(sps_dimensions(&frames.unit()), Some((2400, 544)));
    let fields = head().variables(&[0, 0, 2, 1]).fixed(0, 1).variables(&[149, 33]).fixed(0, 1);
    assert_eq!(sps_dimensions(&fields.unit()), Some((2400, 1088)));
}

#[test]
fn the_order_of_pictures_is_passed_over() {
    let sps = Bits::default()
        .fixed(77, 8)
        .fixed(0, 8)
        .fixed(30, 8)
        .variables(&[0, 4, 1])
        .fixed(1, 1)
        .variables(&[3, 4, 2, 70, 0, 1])
        .fixed(0, 1)
        .variables(&[19, 14])
        .fixed(1, 1);
    assert_eq!(sps_dimensions(&sps.unit()), Some((320, 240)));
}

#[test]
fn scaling_lists_are_passed_over() {
    let mut sps = Bits::default()
        .fixed(244, 8)
        .fixed(0, 8)
        .fixed(30, 8)
        .variables(&[0, 3])
        .fixed(0, 1)
        .variables(&[0, 0])
        .fixed(0, 1)
        .fixed(1, 1)
        // One scale, and then zero: the list ends.
        .fixed(1, 1)
        .variables(&[4, 12]);
    // A whole small list.
    sps = sps.fixed(1, 1).variables(&[0; 16]);
    for _ in 2..6 {
        sps = sps.fixed(0, 1);
    }
    // A whole large list.
    sps = sps.fixed(1, 1).variables(&[0; 64]);
    for _ in 7..12 {
        sps = sps.fixed(0, 1);
    }
    let sps = sps.variables(&[0, 0, 0, 1]).fixed(0, 1).variables(&[39, 44]).fixed(1, 1);
    assert_eq!(sps_dimensions(&sps.unit()), Some((640, 720)));
}

#[test]
fn what_states_no_size_has_none() {
    assert_eq!(sps_dimensions(&[]), None);
    assert_eq!(sps_dimensions(&[0x67, 0x42, 0x1F]), None, "cut off");
    assert_eq!(
        sps_dimensions(&[0x68, 0x42, 0x00, 0x1F, 0x95, 0xA8, 0x14, 0x01, 0x6E, 0x40]),
        None,
        "a picture parameter set"
    );
    assert_eq!(sps_dimensions(&[0x67, 0x42, 0x00, 0x1F, 0, 0, 0, 0, 0, 0, 0, 0xFF]), None);
    let huge = Bits::default().fixed(66, 8).fixed(0, 16).variables(&[0, 0, 2, 1]).fixed(0, 1);
    let huge = huge.variables(&[u32::MAX / 16, 1]).fixed(1, 1);
    assert_eq!(sps_dimensions(&huge.unit()), None, "a size that no picture has");
}

#[test]
fn every_marker_opens_a_unit_unless_only_zeros_follow() {
    let s = [9, 0, 0, 1, 7, 8, 0, 0, 0, 0, 1, 0, 0, 1, 5, 0, 0, 1];
    assert_eq!(iter_nal_units(&s).collect(), vec![&[7u8, 8][..], &[5][..]]);
    let mut units = iter_nal_units(&s);
    assert!(units.next().is_some() && units.next().is_some());
    assert!(units.next().is_none() && units.next().is_none());
    assert_eq!(iter_nal_units(&[0, 0, 1, 6, 0]).collect(), vec![&[6u8, 0][..]]);
}
