use mp4::av1::{
    build_av01_box, decode_leb128, parse_frame_header_prefix, parse_obus, parse_sequence_header,
    Av1FrameType, Av1ObuParseContext, Av1ObuType, Av1SampleEntryConfig,
};
use mp4::boxes::SampleEntry;
use mp4::error::ErrorKind;

/// Profile 0, level 8 (main tier), 1920x1080, 4:2:0 with chroma sample position 1.
const SEQ_PAYLOAD: [u8; 13] = [
    0x00, 0x00, 0x00, 0x43, 0xfc, 0x1d, 0xfc, 0x10, 0xdc, 0xff, 0xf9, 0x82, 0x40,
];

/// Reduced still picture header: level 4, 100x50, 10 bit monochrome.
const STILL_PAYLOAD: [u8; 6] = [0x19, 0x1d, 0xd8, 0xcc, 0x40, 0xc4];

fn seq_obu() -> Vec<u8> {
    let mut v = vec![0x0a, SEQ_PAYLOAD.len() as u8];
    v.extend_from_slice(&SEQ_PAYLOAD);
    v
}

#[test]
fn av1_leb128_values_and_errors() {
    assert_eq!(decode_leb128(&[0x05]).unwrap(), (5, 1));
    assert_eq!(decode_leb128(&[0x80, 0x01, 0xff]).unwrap(), (128, 2));
    assert_eq!(decode_leb128(&[0xff, 0xff, 0xff, 0xff, 0x0f]).unwrap(), (u32::MAX, 5));
    // padded encoding of 1 in eight bytes
    assert_eq!(decode_leb128(&[0x81, 0x80, 0x80, 0x80, 0x80, 0x80, 0x80, 0x00]).unwrap(), (1, 8));
    assert_eq!(
        decode_leb128(&[0xff, 0xff, 0xff, 0xff, 0x1f]).unwrap_err().kind,
        ErrorKind::InvalidInput
    );
    assert!(decode_leb128(&[0x80]).is_err());
    assert!(decode_leb128(&[0x80; 9]).is_err());
}

#[test]
fn av1_parse_obus_in_a_sample() {
    let mut input = vec![0x12, 0x00];
    input.extend(seq_obu());
    // frame OBU with an extension header and no size field: runs to the end
    input.extend_from_slice(&[0x34, 0x28, 0x10, 0xaa, 0xbb]);
    let obus = parse_obus(&input, Av1ObuParseContext::Sample).unwrap();
    assert_eq!(obus.len(), 3);
    assert_eq!(obus[0].obu_type, Av1ObuType::TemporalDelimiter);
    assert!(obus[0].payload.is_empty());
    assert_eq!(obus[1].obu_type, Av1ObuType::SequenceHeader);
    assert_eq!(obus[1].header, &[0x0a][..]);
    assert_eq!(obus[1].payload, &SEQ_PAYLOAD[..]);
    assert_eq!(obus[1].obu, &seq_obu()[..]);
    assert_eq!(obus[2].obu_type, Av1ObuType::Frame);
    assert_eq!(obus[2].temporal_id, 1);
    assert_eq!(obus[2].spatial_id, 1);
    assert_eq!(obus[2].header, &[0x34, 0x28][..]);
    assert_eq!(obus[2].payload, &[0x10, 0xaa, 0xbb][..]);
}

#[test]
fn av1_parse_obus_contexts_and_errors() {
    assert!(parse_obus(&[], Av1ObuParseContext::ConfigObus).unwrap().is_empty());
    assert_eq!(
        parse_obus(&[], Av1ObuParseContext::Sample).unwrap_err().kind,
        ErrorKind::InvalidInput
    );
    // configOBUs need a size field
    assert!(parse_obus(&[0x08, 0x00], Av1ObuParseContext::ConfigObus).is_err());
    // forbidden bit, reserved bit, size past the end, tile list
    assert!(parse_obus(&[0x92, 0x00], Av1ObuParseContext::Sample).is_err());
    assert!(parse_obus(&[0x13, 0x00], Av1ObuParseContext::Sample).is_err());
    assert!(parse_obus(&[0x12, 0x05, 0x00], Av1ObuParseContext::Sample).is_err());
    assert!(parse_obus(&[0x42, 0x00], Av1ObuParseContext::Sample).is_err());
    // sequence header with an extension header
    assert!(parse_obus(&[0x0e, 0x00, 0x00], Av1ObuParseContext::Sample).is_err());
}

#[test]
fn av1_sequence_header_main_profile() {
    let seq = parse_sequence_header(&SEQ_PAYLOAD).unwrap();
    assert_eq!(seq.seq_profile, 0);
    assert_eq!(seq.seq_level_idx_0, 8);
    assert_eq!(seq.seq_tier_0, 0);
    assert!(!seq.high_bitdepth);
    assert!(!seq.twelve_bit);
    assert!(!seq.monochrome);
    assert_eq!((seq.chroma_subsampling_x, seq.chroma_subsampling_y), (1, 1));
    assert_eq!(seq.chroma_sample_position, 1);
    assert_eq!((seq.max_frame_width, seq.max_frame_height), (1920, 1080));
    assert!(!seq.reduced_still_picture_header);
}

#[test]
fn av1_sequence_header_reduced_still_picture() {
    let seq = parse_sequence_header(&STILL_PAYLOAD).unwrap();
    assert!(seq.reduced_still_picture_header);
    assert_eq!(seq.seq_level_idx_0, 4);
    assert!(seq.high_bitdepth);
    assert!(seq.monochrome);
    assert_eq!((seq.chroma_subsampling_x, seq.chroma_subsampling_y), (1, 1));
    assert_eq!(seq.chroma_sample_position, 0);
    assert_eq!((seq.max_frame_width, seq.max_frame_height), (100, 50));
    // the frame header of a reduced still picture is always a shown key frame
    let prefix = parse_frame_header_prefix(&[], &seq).unwrap();
    assert!(!prefix.show_existing_frame);
    assert_eq!(prefix.frame_type, Some(Av1FrameType::Key));
    assert_eq!(prefix.show_frame, Some(true));
}

#[test]
fn av1_sequence_header_rejects_reserved_profile_and_truncation() {
    assert_eq!(parse_sequence_header(&[0xe0]).unwrap_err().kind, ErrorKind::InvalidInput);
    // reduced_still_picture_header without still_picture
    assert!(parse_sequence_header(&[0x04, 0x00]).is_err());
    assert!(parse_sequence_header(&SEQ_PAYLOAD[..6]).is_err());
}

#[test]
fn av1_frame_header_prefix() {
    let seq = parse_sequence_header(&SEQ_PAYLOAD).unwrap();
    let key = parse_frame_header_prefix(&[0x10], &seq).unwrap();
    assert_eq!(key.frame_type, Some(Av1FrameType::Key));
    assert_eq!(key.show_frame, Some(true));
    let inter = parse_frame_header_prefix(&[0x20], &seq).unwrap();
    assert_eq!(inter.frame_type, Some(Av1FrameType::Inter));
    assert_eq!(inter.show_frame, Some(false));
    let existing = parse_frame_header_prefix(&[0x80], &seq).unwrap();
    assert!(existing.show_existing_frame);
    assert_eq!(existing.frame_type, None);
    assert!(parse_frame_header_prefix(&[], &seq).is_err());
}

#[test]
fn av1_build_av01_box_from_sequence_header() {
    let seq = parse_sequence_header(&SEQ_PAYLOAD).unwrap();
    let config = Av1SampleEntryConfig { initial_presentation_delay_minus_one: Some(3) };
    let obus = seq_obu();
    let b = build_av01_box(&seq, &obus, &config).unwrap();
    let c = &b.av1c_box;
    assert_eq!(c.seq_profile, 0);
    assert_eq!(c.seq_level_idx_0, 8);
    assert_eq!(c.seq_tier_0, 0);
    assert_eq!((c.high_bitdepth, c.twelve_bit, c.monochrome), (0, 0, 0));
    assert_eq!((c.chroma_subsampling_x, c.chroma_subsampling_y), (1, 1));
    assert_eq!(c.chroma_sample_position, 1);
    assert_eq!(c.initial_presentation_delay_minus_one, Some(3));
    assert_eq!(c.config_obus, obus);
    assert_eq!((b.visual.width, b.visual.height), (1920, 1080));
    // configOBUs may be empty
    assert!(build_av01_box(&seq, &[], &config).is_ok());
}

#[test]
fn av1_build_av01_box_rejections() {
    let seq = parse_sequence_header(&SEQ_PAYLOAD).unwrap();
    let config = Av1SampleEntryConfig { initial_presentation_delay_minus_one: None };
    // a sequence header OBU that differs from `seq`
    let still = parse_sequence_header(&STILL_PAYLOAD).unwrap();
    let err = build_av01_box(&still, &seq_obu(), &config).unwrap_err();
    assert_eq!(err.kind, ErrorKind::InvalidInput);
    // the sequence header OBU is not first
    let mut late = vec![0x12, 0x00];
    late.extend(seq_obu());
    assert!(build_av01_box(&seq, &late, &config).is_err());
    // two sequence header OBUs
    let mut twice = seq_obu();
    twice.extend(seq_obu());
    assert!(build_av01_box(&seq, &twice, &config).is_err());
    // delay out of range
    let bad = Av1SampleEntryConfig { initial_presentation_delay_minus_one: Some(16) };
    assert!(build_av01_box(&seq, &seq_obu(), &bad).is_err());
    // width that does not fit the visual sample entry
    let mut wide = seq;
    wide.max_frame_width = 70000;
    assert!(build_av01_box(&wide, &[], &config).is_err());
}

#[test]
fn built_av01_entry_encodes() {
    let seq = parse_sequence_header(&SEQ_PAYLOAD).unwrap();
    let config = Av1SampleEntryConfig { initial_presentation_delay_minus_one: Some(3) };
    let b = build_av01_box(&seq, &[], &config).unwrap();
    let bytes = SampleEntry::Av01(b).encode().unwrap();
    assert_eq!(&bytes[4..8], b"av01");
    assert_eq!(&bytes[86..], &[0, 0, 0, 12, b'a', b'v', b'1', b'C', 0x81, 0x08, 0x0d, 0x13]);
}

#[test]
fn av1_parsed_obus_tile_the_input() {
    let mut input = vec![0x12, 0x00];
    input.extend(seq_obu());
    input.extend_from_slice(&[0x34, 0x28, 0x10, 0xaa, 0xbb]);
    let obus = parse_obus(&input, Av1ObuParseContext::Sample).unwrap();
    let joined: Vec<u8> = obus.iter().flat_map(|o| o.obu.iter().copied()).collect();
    assert_eq!(joined, input);
}
