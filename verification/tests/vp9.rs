use mp4::boxes::SampleEntry;
use mp4::error::ErrorKind;
use mp4::opus::{build_opus_box, ChannelCount, OpusSampleEntryConfig};
use mp4::vp9::{
    build_vp09_box, parse_frame_header, Vp9FrameSize, Vp9FrameType, Vp9SampleEntryConfig,
};

const KEY_P0_640X360: [u8; 9] = [0x82, 0x49, 0x83, 0x42, 0x20, 0x27, 0xf0, 0x16, 0x70];
const KEY_P2_12BIT: [u8; 13] = [
    0x93, 0x49, 0x83, 0x42, 0xd8, 0x3b, 0xf8, 0x21, 0xbc, 0x13, 0xfc, 0x0b, 0x3c,
];
const KEY_P1_444: [u8; 9] = [0xa2, 0x49, 0x83, 0x42, 0x40, 0x00, 0xc6, 0x00, 0x62];
const INTER: [u8; 5] = [0x86, 0x00, 0x49, 0x19, 0x00];
const SHOW_EXISTING: [u8; 1] = [0x8d];
const INTRA_ONLY_P0: [u8; 10] = [0x84, 0x89, 0x30, 0x68, 0x41, 0xe0, 0x27, 0xe0, 0x1d, 0xe0];

fn config() -> Vp9SampleEntryConfig {
    Vp9SampleEntryConfig {
        level: Some(31),
        colour_primaries: Vp9SampleEntryConfig::COLOUR_PRIMARIES_BT709,
        transfer_characteristics: Vp9SampleEntryConfig::TRANSFER_CHARACTERISTICS_BT709,
        matrix_coefficients: Vp9SampleEntryConfig::MATRIX_COEFFICIENTS_BT709,
        width: 640,
        height: 360,
    }
}

#[test]
fn vp9_key_frame_profile0() {
    let h = parse_frame_header(&KEY_P0_640X360).unwrap();
    assert_eq!(h.profile, 0);
    assert_eq!(h.show_existing_frame, None);
    assert_eq!(h.frame_type, Vp9FrameType::Key);
    assert!(h.show_frame);
    assert!(!h.error_resilient_mode);
    assert!(!h.intra_only);
    assert_eq!(h.refresh_frame_flags, 0xff);
    assert_eq!(h.bit_depth, 8);
    assert_eq!(h.color_space, 1);
    assert_eq!(h.color_range, 0);
    assert_eq!((h.subsampling_x, h.subsampling_y), (1, 1));
    assert_eq!(h.frame_size, Vp9FrameSize::Resolved { width: 640, height: 360 });
    assert_eq!(h.render_size, None);
}

#[test]
fn vp9_key_frame_profile2_twelve_bit_with_render_size() {
    let h = parse_frame_header(&KEY_P2_12BIT).unwrap();
    assert_eq!(h.profile, 2);
    assert!(h.error_resilient_mode);
    assert_eq!(h.bit_depth, 12);
    assert_eq!(h.color_space, 5);
    assert_eq!(h.color_range, 1);
    assert_eq!(h.frame_size, Vp9FrameSize::Resolved { width: 1920, height: 1080 });
    assert_eq!(h.render_size, Some((1280, 720)));
}

#[test]
fn vp9_key_frame_profile1_444() {
    let h = parse_frame_header(&KEY_P1_444).unwrap();
    assert_eq!(h.profile, 1);
    assert_eq!(h.bit_depth, 8);
    assert_eq!(h.color_space, 2);
    assert_eq!((h.subsampling_x, h.subsampling_y), (0, 0));
    assert_eq!(h.frame_size, Vp9FrameSize::Resolved { width: 100, height: 50 });
}

#[test]
fn vp9_inter_frame_takes_size_from_reference() {
    let h = parse_frame_header(&INTER).unwrap();
    assert_eq!(h.frame_type, Vp9FrameType::NonKey);
    assert_eq!(h.refresh_frame_flags, 0x01);
    assert_eq!(h.bit_depth, 0);
    // found_ref is set for the second reference, whose slot is 2
    assert_eq!(h.frame_size, Vp9FrameSize::UsesRefFrames { ref_frame_slot: 2 });
    assert_eq!(h.render_size, None);
}

#[test]
fn vp9_show_existing_frame() {
    let h = parse_frame_header(&SHOW_EXISTING).unwrap();
    assert_eq!(h.show_existing_frame, Some(5));
    assert_eq!(h.frame_type, Vp9FrameType::NonKey);
    assert!(h.show_frame);
    assert_eq!(h.refresh_frame_flags, 0);
    assert_eq!(h.frame_size, Vp9FrameSize::NotPresent);
}

#[test]
fn vp9_intra_only_profile0_assumes_420_8bit() {
    let h = parse_frame_header(&INTRA_ONLY_P0).unwrap();
    assert!(h.intra_only);
    assert!(!h.show_frame);
    assert_eq!(h.refresh_frame_flags, 0x0f);
    assert_eq!(h.bit_depth, 8);
    assert_eq!(h.color_space, 1);
    assert_eq!((h.subsampling_x, h.subsampling_y), (1, 1));
    assert_eq!(h.frame_size, Vp9FrameSize::Resolved { width: 320, height: 240 });
}

#[test]
fn vp9_rejects_bad_marker_sync_code_and_truncation() {
    assert_eq!(parse_frame_header(&[0x42]).unwrap_err().kind, ErrorKind::InvalidInput);
    let mut bad_sync = KEY_P0_640X360;
    bad_sync[2] = 0x00;
    assert_eq!(parse_frame_header(&bad_sync).unwrap_err().kind, ErrorKind::InvalidInput);
    assert!(parse_frame_header(&KEY_P0_640X360[..5]).is_err());
    assert!(parse_frame_header(&[]).is_err());
}

#[test]
fn vp9_build_vp09_box_maps_colour_config() {
    let h = parse_frame_header(&KEY_P0_640X360).unwrap();
    let b = build_vp09_box(&h, &config()).unwrap();
    assert_eq!(b.vpcc_box.profile, 0);
    assert_eq!(b.vpcc_box.level, 31);
    assert_eq!(b.vpcc_box.bit_depth, 8);
    assert_eq!(b.vpcc_box.chroma_subsampling, 1);
    assert_eq!(b.vpcc_box.video_full_range_flag, 0);
    assert_eq!(b.vpcc_box.colour_primaries, 1);
    assert!(b.vpcc_box.codec_initialization_data.is_empty());
    assert_eq!((b.visual.width, b.visual.height), (640, 360));

    let h444 = parse_frame_header(&KEY_P1_444).unwrap();
    let mut c = config();
    c.level = None;
    let b = build_vp09_box(&h444, &c).unwrap();
    assert_eq!(b.vpcc_box.chroma_subsampling, 3);
    assert_eq!(b.vpcc_box.level, 0);
}

#[test]
fn vp9_build_vp09_box_rejects_headers_without_colour() {
    let inter = parse_frame_header(&INTER).unwrap();
    assert_eq!(build_vp09_box(&inter, &config()).unwrap_err().kind, ErrorKind::InvalidInput);
    let mut h = parse_frame_header(&KEY_P1_444).unwrap();
    h.subsampling_y = 1;
    // 4:4:0 has no chroma_subsampling value
    assert!(build_vp09_box(&h, &config()).is_err());
    h.subsampling_y = 0;
    h.bit_depth = 9;
    assert!(build_vp09_box(&h, &config()).is_err());
}

#[test]
fn opus_box_uses_48khz_and_configured_fields() {
    let b = build_opus_box(&OpusSampleEntryConfig {
        channel_count: ChannelCount::Stereo,
        pre_skip: 312,
        input_sample_rate: 44100,
        output_gain: -256,
    });
    assert_eq!(b.audio.channelcount, 2);
    assert_eq!(b.audio.samplesize, 16);
    assert_eq!(b.audio.samplerate.integer, 48000);
    assert_eq!(b.audio.samplerate.fraction, 0);
    assert_eq!(b.audio.data_reference_index, 1);
    assert_eq!(b.dops_box.output_channel_count, 2);
    assert_eq!(b.dops_box.pre_skip, 312);
    assert_eq!(b.dops_box.input_sample_rate, 44100);
    assert_eq!(b.dops_box.output_gain, -256);
    assert!(b.unknown_boxes.is_empty());
    assert_eq!(ChannelCount::Mono.as_u8(), 1);
}

#[test]
fn built_vp09_entry_encodes() {
    let h = parse_frame_header(&KEY_P0_640X360).unwrap();
    let b = build_vp09_box(&h, &config()).unwrap();
    let bytes = SampleEntry::Vp09(b).encode().unwrap();
    assert_eq!(&bytes[4..8], b"vp09");
    assert_eq!(&bytes[86..], &[0, 0, 0, 20, b'v', b'p', b'c', b'C', 1, 0, 0, 0, 0, 31, 0x82, 1, 1, 1, 0, 0]);
}
