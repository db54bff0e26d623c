use mp4::boxes::SampleEntry;
use mp4::error::ErrorKind;
use mp4::h265::{
    annexb_to_length_prefixed, build_hev1_box, build_hev1_box_from_annexb, build_hvc1_box,
    build_hvc1_box_from_annexb, collect_nal_units, length_prefixed_to_annexb,
    parse_annexb_nal_units, parse_length_prefixed_nal_units, parse_sps, H265NalUnitType,
    H265SampleEntryConfig,
};
use mp4::nal::LengthSize;

/// Main profile, level 3.1 (93), 1920x1088 cropped by 8 rows, with
/// emulation prevention bytes inside the profile fields.
const SPS_MAIN: [u8; 26] = [
    0x42, 0x01, 0x01, 0x01, 0x60, 0x00, 0x00, 0x03, 0x00, 0x90, 0x00, 0x00, 0x03, 0x00, 0x00,
    0x03, 0x00, 0x5d, 0xa0, 0x03, 0xc0, 0x80, 0x11, 0x07, 0xcb, 0xc0,
];

/// Two sub-layers (both with profile and level), 4:2:2, 10 bit, 3840x2160.
const SPS_SUBLAYERS: [u8; 45] = [
    0x42, 0x01, 0x02, 0x01, 0x60, 0x00, 0x00, 0x03, 0x00, 0x90, 0x00, 0x00, 0x03, 0x00, 0x00,
    0x03, 0x00, 0x5d, 0xc0, 0x00, 0x00, 0x03, 0x00, 0x00, 0x03, 0x00, 0x00, 0x03, 0x00, 0x00,
    0x03, 0x00, 0x00, 0x03, 0x00, 0x00, 0x5a, 0xb0, 0x01, 0xe0, 0x20, 0x02, 0x1c, 0x4d, 0xc0,
];

const VPS: [u8; 4] = [0x40, 0x01, 0x0c, 0x01];
const PPS: [u8; 4] = [0x44, 0x01, 0xc1, 0x72];

fn annexb_stream() -> Vec<u8> {
    let mut v = Vec::new();
    for nal in [&VPS[..], &SPS_MAIN[..], &PPS[..], &[0x26, 0x01, 0xaf][..]] {
        v.extend_from_slice(&[0, 0, 0, 1]);
        v.extend_from_slice(nal);
    }
    v
}

#[test]
fn parse_sps_main_profile() {
    let sps = parse_sps(&SPS_MAIN).unwrap();
    assert_eq!(sps.general_profile_space, 0);
    assert_eq!(sps.general_tier_flag, 0);
    assert_eq!(sps.general_profile_idc, 1);
    assert_eq!(sps.general_profile_compatibility_flags, 0x6000_0000);
    assert_eq!(sps.general_constraint_indicator_flags, 0x9000_0000_0000);
    assert_eq!(sps.general_level_idc, 93);
    assert_eq!(sps.sps_max_sub_layers_minus1, 0);
    assert_eq!(sps.sps_temporal_id_nesting_flag, 1);
    assert_eq!(sps.chroma_format_idc, 1);
    assert_eq!(sps.bit_depth_luma_minus8, 0);
    assert_eq!(sps.bit_depth_chroma_minus8, 0);
    // 1088 - SubHeightC (2) * 4
    assert_eq!((sps.width, sps.height), (1920, 1080));
}

#[test]
fn parse_sps_with_sub_layers() {
    let sps = parse_sps(&SPS_SUBLAYERS).unwrap();
    assert_eq!(sps.sps_max_sub_layers_minus1, 1);
    assert_eq!(sps.sps_temporal_id_nesting_flag, 0);
    assert_eq!(sps.general_level_idc, 93);
    assert_eq!(sps.chroma_format_idc, 2);
    assert_eq!(sps.bit_depth_luma_minus8, 2);
    assert_eq!(sps.bit_depth_chroma_minus8, 2);
    assert_eq!((sps.width, sps.height), (3840, 2160));
}

#[test]
fn parse_sps_rejects_bad_headers() {
    assert_eq!(parse_sps(&VPS).unwrap_err().kind, ErrorKind::InvalidInput);
    assert_eq!(parse_sps(&[0x42]).unwrap_err().kind, ErrorKind::InvalidInput);
    // TemporalId 1
    let mut tid = SPS_MAIN;
    tid[1] = 0x02;
    assert_eq!(parse_sps(&tid).unwrap_err().kind, ErrorKind::InvalidInput);
    // nesting flag 0 with a single sub-layer
    let mut nesting = SPS_MAIN;
    nesting[2] = 0x00;
    assert_eq!(parse_sps(&nesting).unwrap_err().kind, ErrorKind::InvalidInput);
    // cut off in the profile fields
    assert!(parse_sps(&SPS_MAIN[..10]).is_err());
}

#[test]
fn parse_annexb_nal_units_reads_headers() {
    let input = annexb_stream();
    let nals = parse_annexb_nal_units(&input).unwrap();
    let types: Vec<H265NalUnitType> = nals.iter().map(|n| n.nal_unit_type).collect();
    assert_eq!(
        types,
        vec![
            H265NalUnitType::Vps,
            H265NalUnitType::Sps,
            H265NalUnitType::Pps,
            H265NalUnitType::Other(19)
        ]
    );
    assert_eq!(nals[3].nuh_layer_id, 0);
    assert_eq!(nals[3].nuh_temporal_id_plus1, 1);
    assert_eq!(nals[1].data, &SPS_MAIN[..]);
}

#[test]
fn h265_length_prefixed_roundtrip() {
    let input = annexb_stream();
    let lp = annexb_to_length_prefixed(&input, LengthSize::TwoBytes).unwrap();
    assert_eq!(&lp[..6], &[0, 4, 0x40, 0x01, 0x0c, 0x01]);
    let units = parse_length_prefixed_nal_units(&lp, LengthSize::TwoBytes).unwrap();
    assert_eq!(units, parse_annexb_nal_units(&input).unwrap());
    let back = length_prefixed_to_annexb(&lp, LengthSize::TwoBytes).unwrap();
    assert_eq!(back, input);
}

#[test]
fn h265_rejects_nal_with_zero_temporal_id_plus1() {
    assert_eq!(
        parse_annexb_nal_units(&[0, 0, 1, 0x40, 0x00]).unwrap_err().kind,
        ErrorKind::InvalidInput
    );
    assert!(parse_annexb_nal_units(&[0, 0, 1, 0x40]).is_err());
}

#[test]
fn h265_collect_nal_units_by_type() {
    let input = annexb_stream();
    let nals = parse_annexb_nal_units(&input).unwrap();
    assert_eq!(collect_nal_units(&nals, H265NalUnitType::Sps), vec![&SPS_MAIN[..]]);
    assert!(collect_nal_units(&nals, H265NalUnitType::Aud).is_empty());
}

#[test]
fn build_hvc1_box_fills_hvcc_from_first_sps() {
    let config = H265SampleEntryConfig { length_size: LengthSize::FourBytes };
    let b = build_hvc1_box(&[VPS.to_vec()], &[SPS_MAIN.to_vec()], &[PPS.to_vec()], &config).unwrap();
    let h = &b.hvcc_box;
    assert_eq!(h.general_profile_idc, 1);
    assert_eq!(h.general_profile_compatibility_flags, 0x6000_0000);
    assert_eq!(h.general_constraint_indicator_flags, 0x9000_0000_0000);
    assert_eq!(h.general_level_idc, 93);
    assert_eq!(h.min_spatial_segmentation_idc, 0);
    assert_eq!(h.parallelism_type, 0);
    assert_eq!(h.chroma_format_idc, 1);
    assert_eq!(h.avg_frame_rate, 0);
    assert_eq!(h.constant_frame_rate, 0);
    assert_eq!(h.num_temporal_layers, 1);
    assert_eq!(h.temporal_id_nested, 1);
    assert_eq!(h.length_size_minus_one, 3);
    assert_eq!(h.nalu_arrays.len(), 3);
    assert_eq!(
        h.nalu_arrays.iter().map(|a| (a.array_completeness, a.nal_unit_type)).collect::<Vec<_>>(),
        vec![(1, 32), (1, 33), (1, 34)]
    );
    assert_eq!(h.nalu_arrays[1].nalus, vec![SPS_MAIN.to_vec()]);
    assert_eq!((b.visual.width, b.visual.height), (1920, 1080));
}

#[test]
fn build_hev1_box_marks_arrays_incomplete() {
    let config = H265SampleEntryConfig { length_size: LengthSize::OneByte };
    let b =
        build_hev1_box(&[VPS.to_vec()], &[SPS_SUBLAYERS.to_vec()], &[PPS.to_vec()], &config).unwrap();
    assert!(b.hvcc_box.nalu_arrays.iter().all(|a| a.array_completeness == 0));
    assert_eq!(b.hvcc_box.num_temporal_layers, 2);
    assert_eq!(b.hvcc_box.temporal_id_nested, 0);
    assert_eq!(b.hvcc_box.length_size_minus_one, 0);
    assert_eq!(b.hvcc_box.bit_depth_luma_minus8, 2);
    assert_eq!((b.visual.width, b.visual.height), (3840, 2160));
}

#[test]
fn build_hvc1_box_rejects_missing_or_mistyped_sets() {
    let config = H265SampleEntryConfig { length_size: LengthSize::FourBytes };
    let sps = [SPS_MAIN.to_vec()];
    let err = build_hvc1_box(&[], &sps, &[PPS.to_vec()], &config).unwrap_err();
    assert_eq!(err.kind, ErrorKind::InvalidInput);
    assert!(build_hvc1_box(&[VPS.to_vec()], &sps, &[], &config).is_err());
    assert!(build_hvc1_box(&[PPS.to_vec()], &sps, &[PPS.to_vec()], &config).is_err());
    assert!(build_hvc1_box(&[VPS.to_vec()], &[VPS.to_vec()], &[PPS.to_vec()], &config).is_err());
}

#[test]
fn build_from_annexb_uses_the_stream_parameter_sets() {
    let config = H265SampleEntryConfig { length_size: LengthSize::FourBytes };
    let input = annexb_stream();
    let hvc1 = build_hvc1_box_from_annexb(&input, &config).unwrap();
    assert_eq!(hvc1.hvcc_box.nalu_arrays[0].nalus, vec![VPS.to_vec()]);
    assert_eq!(hvc1.hvcc_box.nalu_arrays[2].nalus, vec![PPS.to_vec()]);
    let hev1 = build_hev1_box_from_annexb(&input, &config).unwrap();
    assert_eq!(hev1.hvcc_box.nalu_arrays[0].array_completeness, 0);
    assert_eq!(hev1.visual, hvc1.visual);
}

#[test]
fn built_hvc1_and_hev1_entries_encode() {
    let config = H265SampleEntryConfig { length_size: LengthSize::FourBytes };
    let b = build_hvc1_box(&[VPS.to_vec()], &[SPS_MAIN.to_vec()], &[PPS.to_vec()], &config).unwrap();
    let bytes = SampleEntry::Hvc1(b).encode().unwrap();
    assert_eq!(&bytes[4..8], b"hvc1");
    assert_eq!(&bytes[90..94], b"hvcC");
    assert_eq!(bytes[94], 1);
    // three arrays follow, the first of VPS units marked complete
    assert_eq!(bytes[94 + 22], 3);
    assert_eq!(bytes[94 + 23], 0x80 | 32);
    let e = build_hev1_box(&[VPS.to_vec()], &[SPS_SUBLAYERS.to_vec()], &[PPS.to_vec()], &config).unwrap();
    let bytes = SampleEntry::Hev1(e).encode().unwrap();
    assert_eq!(&bytes[4..8], b"hev1");
    assert_eq!(bytes[94 + 23], 32);
}

#[test]
fn hvc1_and_hev1_differ_only_in_array_completeness() {
    let config = H265SampleEntryConfig { length_size: LengthSize::FourBytes };
    let vps = [VPS.to_vec()];
    let sps = [SPS_MAIN.to_vec()];
    let pps = [PPS.to_vec()];
    let h1 = build_hvc1_box(&vps, &sps, &pps, &config).unwrap();
    let h0 = build_hev1_box(&vps, &sps, &pps, &config).unwrap();
    assert_eq!(h1.visual, h0.visual);
    let mut c = h1.hvcc_box.clone();
    for a in c.nalu_arrays.iter_mut() {
        assert_eq!(a.array_completeness, 1);
        a.array_completeness = 0;
    }
    assert_eq!(c, h0.hvcc_box);
}

#[test]
fn hev1_from_annexb_is_parse_collect_build() {
    let config = H265SampleEntryConfig { length_size: LengthSize::TwoBytes };
    let input = annexb_stream();
    let nals = parse_annexb_nal_units(&input).unwrap();
    let lists: Vec<Vec<Vec<u8>>> = [H265NalUnitType::Vps, H265NalUnitType::Sps, H265NalUnitType::Pps]
        .iter()
        .map(|t| collect_nal_units(&nals, *t).iter().map(|s| s.to_vec()).collect())
        .collect();
    assert_eq!(
        build_hev1_box_from_annexb(&input, &config).unwrap(),
        build_hev1_box(&lists[0], &lists[1], &lists[2], &config).unwrap()
    );
    assert_eq!(
        build_hvc1_box_from_annexb(&input, &config).unwrap(),
        build_hvc1_box(&lists[0], &lists[1], &lists[2], &config).unwrap()
    );
}
