use mp4::boxes::SampleEntry;
use mp4::error::ErrorKind;
use mp4::nal::remove_emulation_prevention_bytes;
use mp4::h264::{
    annexb_to_length_prefixed, build_avc1_box, build_avc1_box_from_annexb, collect_nal_units,
    length_prefixed_to_annexb, parse_annexb_nal_units, parse_length_prefixed_nal_units, parse_sps,
    H264NalUnitType, H264SampleEntryConfig, LengthSize,
};

/// Baseline profile, level 4.0, 120x68 macroblocks cropped by 8 rows: 1920x1080.
const SPS_1080P: [u8; 10] = [0x67, 0x42, 0xc0, 0x28, 0xf4, 0x03, 0xc0, 0x11, 0x3f, 0x2a];

/// High profile, level 3.1, 80x23 map units of field pairs: 1280x736.
const SPS_HIGH_FIELDS: [u8; 10] = [0x67, 0x64, 0x00, 0x1f, 0xac, 0xb2, 0x80, 0xa0, 0x17, 0x24];

const PPS: [u8; 4] = [0x68, 0xce, 0x3c, 0x80];

fn annexb_stream() -> Vec<u8> {
    let mut v = vec![0, 0, 0, 1];
    v.extend_from_slice(&SPS_1080P);
    v.extend_from_slice(&[0, 0, 1]);
    v.extend_from_slice(&PPS);
    v.extend_from_slice(&[0, 0, 0, 1, 0x65, 0x88, 0x84, 0x00]);
    v
}

#[test]
fn parse_sps_baseline_1080p() {
    let sps = parse_sps(&SPS_1080P).unwrap();
    assert_eq!(sps.profile_idc, 66);
    assert_eq!(sps.constraint_set_flags, 0xc0);
    assert_eq!(sps.level_idc, 40);
    assert_eq!(sps.chroma_format_idc, 1);
    assert_eq!(sps.bit_depth_luma_minus8, 0);
    assert_eq!(sps.bit_depth_chroma_minus8, 0);
    assert_eq!(sps.width, 1920);
    assert_eq!(sps.height, 1080);
}

#[test]
fn parse_sps_high_profile_field_coding() {
    let sps = parse_sps(&SPS_HIGH_FIELDS).unwrap();
    assert_eq!(sps.profile_idc, 100);
    assert_eq!(sps.level_idc, 31);
    assert_eq!(sps.chroma_format_idc, 1);
    assert_eq!(sps.width, 1280);
    // frame_mbs_only_flag 0 doubles the map units: 2 * 23 * 16
    assert_eq!(sps.height, 736);
}

#[test]
fn parse_sps_rejects_other_nal_types_and_truncation() {
    assert_eq!(parse_sps(&PPS).unwrap_err().kind, ErrorKind::InvalidInput);
    assert_eq!(parse_sps(&[]).unwrap_err().kind, ErrorKind::InvalidInput);
    // forbidden_zero_bit set
    let mut bad = SPS_1080P;
    bad[0] |= 0x80;
    assert_eq!(parse_sps(&bad).unwrap_err().kind, ErrorKind::InvalidInput);
    // cut off before the frame size
    assert!(parse_sps(&SPS_1080P[..5]).is_err());
}

#[test]
fn parse_annexb_nal_units_splits_and_types() {
    let input = annexb_stream();
    let nals = parse_annexb_nal_units(&input).unwrap();
    assert_eq!(nals.len(), 3);
    assert_eq!(nals[0].nal_unit_type, H264NalUnitType::Sps);
    assert_eq!(nals[0].data, &SPS_1080P[..]);
    assert_eq!(nals[1].nal_unit_type, H264NalUnitType::Pps);
    assert_eq!(nals[1].data, &PPS[..]);
    assert_eq!(nals[2].nal_unit_type, H264NalUnitType::IdrSlice);
    assert_eq!(nals[2].data, &[0x65, 0x88, 0x84][..]);
}

#[test]
fn parse_annexb_rejects_missing_start_code_and_empty_units() {
    assert_eq!(parse_annexb_nal_units(&[0x67, 0x42]).unwrap_err().kind, ErrorKind::InvalidInput);
    assert!(parse_annexb_nal_units(&[0, 0, 1, 0, 0, 1, 0x67]).is_err());
    assert!(parse_annexb_nal_units(&[]).unwrap().is_empty());
}

#[test]
fn annexb_length_prefixed_roundtrip_keeps_units() {
    let input = annexb_stream();
    let lp = annexb_to_length_prefixed(&input, LengthSize::FourBytes).unwrap();
    let mut expected = vec![0, 0, 0, 10];
    expected.extend_from_slice(&SPS_1080P);
    expected.extend_from_slice(&[0, 0, 0, 4]);
    expected.extend_from_slice(&PPS);
    expected.extend_from_slice(&[0, 0, 0, 3, 0x65, 0x88, 0x84]);
    assert_eq!(lp, expected);

    let units = parse_length_prefixed_nal_units(&lp, LengthSize::FourBytes).unwrap();
    let direct = parse_annexb_nal_units(&input).unwrap();
    assert_eq!(units, direct);

    let back = length_prefixed_to_annexb(&lp, LengthSize::FourBytes).unwrap();
    let mut expected_back = vec![0, 0, 0, 1];
    expected_back.extend_from_slice(&SPS_1080P);
    expected_back.extend_from_slice(&[0, 0, 0, 1]);
    expected_back.extend_from_slice(&PPS);
    expected_back.extend_from_slice(&[0, 0, 0, 1, 0x65, 0x88, 0x84]);
    assert_eq!(back, expected_back);
}

#[test]
fn length_prefixed_rejects_zero_length_and_truncation() {
    assert!(parse_length_prefixed_nal_units(&[0, 0], LengthSize::TwoBytes).is_err());
    assert!(parse_length_prefixed_nal_units(&[0, 5, 0x67], LengthSize::TwoBytes).is_err());
    assert!(parse_length_prefixed_nal_units(&[0, 0, 0], LengthSize::FourBytes).is_err());
    // a unit too long for a one byte length
    let mut input = vec![0, 0, 1, 0x65];
    input.extend(std::iter::repeat(0x11).take(300));
    assert_eq!(
        annexb_to_length_prefixed(&input, LengthSize::OneByte).unwrap_err().kind,
        ErrorKind::InvalidInput
    );
}

#[test]
fn collect_nal_units_keeps_order_of_one_type() {
    let mut input = annexb_stream();
    input.extend_from_slice(&[0, 0, 1, 0x68, 0x01]);
    let nals = parse_annexb_nal_units(&input).unwrap();
    let pps = collect_nal_units(&nals, H264NalUnitType::Pps);
    assert_eq!(pps, vec![&PPS[..], &[0x68, 0x01][..]]);
    assert!(collect_nal_units(&nals, H264NalUnitType::Sei).is_empty());
}

#[test]
fn build_avc1_box_baseline_has_no_extension_fields() {
    let config = H264SampleEntryConfig { length_size: LengthSize::FourBytes };
    let b = build_avc1_box(&[SPS_1080P.to_vec()], &[PPS.to_vec()], &config).unwrap();
    assert_eq!(b.avcc_box.avc_profile_indication, 66);
    assert_eq!(b.avcc_box.profile_compatibility, 0xc0);
    assert_eq!(b.avcc_box.avc_level_indication, 40);
    assert_eq!(b.avcc_box.length_size_minus_one, 3);
    assert_eq!(b.avcc_box.sps_list, vec![SPS_1080P.to_vec()]);
    assert_eq!(b.avcc_box.pps_list, vec![PPS.to_vec()]);
    assert_eq!(b.avcc_box.chroma_format, None);
    assert_eq!(b.avcc_box.bit_depth_luma_minus8, None);
    assert!(b.avcc_box.sps_ext_list.is_empty());
    assert_eq!(b.visual.width, 1920);
    assert_eq!(b.visual.height, 1080);
    assert_eq!(b.visual.data_reference_index, 1);
    assert_eq!(b.visual.depth, 0x18);
    assert!(b.unknown_boxes.is_empty());
}

#[test]
fn build_avc1_box_high_profile_carries_chroma_and_depth() {
    let config = H264SampleEntryConfig { length_size: LengthSize::TwoBytes };
    let b = build_avc1_box(&[SPS_HIGH_FIELDS.to_vec()], &[PPS.to_vec()], &config).unwrap();
    assert_eq!(b.avcc_box.length_size_minus_one, 1);
    assert_eq!(b.avcc_box.chroma_format, Some(1));
    assert_eq!(b.avcc_box.bit_depth_luma_minus8, Some(0));
    assert_eq!(b.avcc_box.bit_depth_chroma_minus8, Some(0));
    assert_eq!((b.visual.width, b.visual.height), (1280, 736));
}

#[test]
fn build_avc1_box_rejects_bad_parameter_sets() {
    let config = H264SampleEntryConfig { length_size: LengthSize::FourBytes };
    let kind = |r: Result<mp4::boxes::Avc1Box, mp4::error::Error>| r.unwrap_err().kind;
    assert_eq!(kind(build_avc1_box(&[], &[PPS.to_vec()], &config)), ErrorKind::InvalidInput);
    assert_eq!(kind(build_avc1_box(&[SPS_1080P.to_vec()], &[], &config)), ErrorKind::InvalidInput);
    // a PPS in the SPS list
    assert_eq!(kind(build_avc1_box(&[PPS.to_vec()], &[PPS.to_vec()], &config)), ErrorKind::InvalidInput);
    // an SPS in the PPS list
    assert_eq!(
        kind(build_avc1_box(&[SPS_1080P.to_vec()], &[SPS_1080P.to_vec()], &config)),
        ErrorKind::InvalidInput
    );
    // 32 SPSs
    let many = vec![SPS_1080P.to_vec(); 32];
    assert_eq!(kind(build_avc1_box(&many, &[PPS.to_vec()], &config)), ErrorKind::InvalidInput);
}

#[test]
fn build_avc1_box_from_annexb_collects_parameter_sets() {
    let config = H264SampleEntryConfig { length_size: LengthSize::FourBytes };
    let b = build_avc1_box_from_annexb(&annexb_stream(), &config).unwrap();
    assert_eq!(b.avcc_box.sps_list, vec![SPS_1080P.to_vec()]);
    assert_eq!(b.avcc_box.pps_list, vec![PPS.to_vec()]);
    assert_eq!((b.visual.width, b.visual.height), (1920, 1080));
    // no PPS in the stream
    let mut only_sps = vec![0, 0, 0, 1];
    only_sps.extend_from_slice(&SPS_1080P);
    assert!(build_avc1_box_from_annexb(&only_sps, &config).is_err());
}

#[test]
fn length_size_minus_one_mapping() {
    assert_eq!(LengthSize::OneByte.length_size_minus_one(), 0);
    assert_eq!(LengthSize::TwoBytes.length_size_minus_one(), 1);
    assert_eq!(LengthSize::FourBytes.length_size_minus_one(), 3);
    assert_eq!(LengthSize::from_length_size_minus_one(3).unwrap(), LengthSize::FourBytes);
    assert_eq!(
        LengthSize::from_length_size_minus_one(2).unwrap_err().kind,
        ErrorKind::InvalidInput
    );
    assert!(LengthSize::from_length_size_minus_one(4).is_err());
}

#[test]
fn remove_emulation_prevention_bytes_drops_only_escapes() {
    assert_eq!(
        remove_emulation_prevention_bytes(&[0x00, 0x00, 0x03, 0x01, 0x00, 0x00, 0x03]),
        vec![0x00, 0x00, 0x01, 0x00, 0x00]
    );
    assert_eq!(remove_emulation_prevention_bytes(&[0x00, 0x03, 0x00]), vec![0x00, 0x03, 0x00]);
}

#[test]
fn built_avc1_entries_encode() {
    let config = H264SampleEntryConfig { length_size: LengthSize::FourBytes };
    let b = build_avc1_box(&[SPS_1080P.to_vec()], &[PPS.to_vec()], &config).unwrap();
    let bytes = SampleEntry::Avc1(b).encode().unwrap();
    assert_eq!(&bytes[4..8], b"avc1");
    assert_eq!(&bytes[90..94], b"avcC");
    assert_eq!(&bytes[94..100], &[1, 66, 0xc0, 40, 0xff, 0xe1]);
    let config = H264SampleEntryConfig { length_size: LengthSize::TwoBytes };
    let high = build_avc1_box(&[SPS_HIGH_FIELDS.to_vec()], &[PPS.to_vec()], &config).unwrap();
    let bytes = SampleEntry::Avc1(high).encode().unwrap();
    assert_eq!(bytes[98], 0xfd);
    assert_eq!(&bytes[bytes.len() - 4..], &[0xfd, 0xf8, 0xf8, 0]);
}

#[test]
fn avc1_from_annexb_is_parse_collect_build() {
    let config = H264SampleEntryConfig { length_size: LengthSize::FourBytes };
    let input = annexb_stream();
    let nals = parse_annexb_nal_units(&input).unwrap();
    let sps: Vec<Vec<u8>> = collect_nal_units(&nals, H264NalUnitType::Sps)
        .iter()
        .map(|s| s.to_vec())
        .collect();
    let pps: Vec<Vec<u8>> = collect_nal_units(&nals, H264NalUnitType::Pps)
        .iter()
        .map(|s| s.to_vec())
        .collect();
    assert_eq!(
        build_avc1_box_from_annexb(&input, &config).unwrap(),
        build_avc1_box(&sps, &pps, &config).unwrap()
    );
    // a stream that does not parse fails with the parse's error
    let bad = [1u8, 2, 3];
    let e1 = build_avc1_box_from_annexb(&bad, &config).unwrap_err();
    let e2 = parse_annexb_nal_units(&bad).unwrap_err();
    assert_eq!(e1.kind, e2.kind);
    assert_eq!(e1.reason, e2.reason);
}

#[test]
fn length_prefixed_through_annexb_and_back() {
    let lp = annexb_to_length_prefixed(&annexb_stream(), LengthSize::TwoBytes).unwrap();
    let annexb = length_prefixed_to_annexb(&lp, LengthSize::TwoBytes).unwrap();
    assert_eq!(annexb_to_length_prefixed(&annexb, LengthSize::TwoBytes).unwrap(), lp);
}

#[test]
fn annexb_scan_reasons() {
    let reason = |input: &[u8]| parse_annexb_nal_units(input).unwrap_err().reason;
    assert_eq!(reason(&[1, 2, 3]), "Annex B input has no start code");
    assert_eq!(
        reason(&[1, 0, 0, 1, 0x67]),
        "Annex B input has non-zero bytes before the first start code"
    );
    assert_eq!(reason(&[0, 0, 1, 0, 0, 0, 1, 0x67]), "Annex B input has an empty NAL unit");
    assert_eq!(reason(&[0, 0, 1, 0x67, 0, 0, 1, 0x80]), "forbidden_zero_bit must be 0");
}
