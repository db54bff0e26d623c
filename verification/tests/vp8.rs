use mp4::vp8::{build_vp08_box, parse_frame_header, Vp8FrameType, Vp8SampleEntryConfig};

const KEY_FRAME_START_CODE: [u8; 3] = [0x9D, 0x01, 0x2A];
const FIRST_PARTITION_SIZE_MAX: u32 = (1 << 19) - 1;

struct KeyframeParams {
    version: u8,
    show_frame: bool,
    first_partition_size: u32,
    width: u16,
    horizontal_scale: u8,
    height: u16,
    vertical_scale: u8,
    start_code: [u8; 3],
}

impl KeyframeParams {
    fn valid() -> Self {
        Self {
            version: 0,
            show_frame: true,
            first_partition_size: 0,
            width: 320,
            horizontal_scale: 0,
            height: 240,
            vertical_scale: 0,
            start_code: KEY_FRAME_START_CODE,
        }
    }
}

fn build_keyframe_bytes(params: KeyframeParams) -> Vec<u8> {
    let mut bytes = Vec::new();
    let tag = ((params.first_partition_size & FIRST_PARTITION_SIZE_MAX) << 5)
        | ((u32::from(params.show_frame) & 0x1) << 4)
        | ((u32::from(params.version) & 0x7) << 1);
    bytes.push((tag & 0xFF) as u8);
    bytes.push(((tag >> 8) & 0xFF) as u8);
    bytes.push(((tag >> 16) & 0xFF) as u8);
    bytes.extend_from_slice(&params.start_code);
    let width_field = (params.width & 0x3FFF) | ((u16::from(params.horizontal_scale) & 0x3) << 14);
    bytes.extend_from_slice(&width_field.to_le_bytes());
    let height_field = (params.height & 0x3FFF) | ((u16::from(params.vertical_scale) & 0x3) << 14);
    bytes.extend_from_slice(&height_field.to_le_bytes());
    bytes
}

fn build_interframe_bytes(version: u8, show_frame: bool, first_partition_size: u32) -> Vec<u8> {
    let mut bytes = Vec::new();
    let tag = ((first_partition_size & FIRST_PARTITION_SIZE_MAX) << 5)
        | ((u32::from(show_frame) & 0x1) << 4)
        | ((u32::from(version) & 0x7) << 1)
        | 0x1;
    bytes.push((tag & 0xFF) as u8);
    bytes.push(((tag >> 8) & 0xFF) as u8);
    bytes.push(((tag >> 16) & 0xFF) as u8);
    bytes
}

#[test]
fn parse_keyframe_minimal() {
    let bytes = build_keyframe_bytes(KeyframeParams::valid());
    let header = parse_frame_header(&bytes).expect("minimal key frame parses");
    assert_eq!(header.frame_type, Vp8FrameType::Key);
    assert_eq!(header.version, 0);
    assert!(header.show_frame);
    assert_eq!(header.first_partition_size, 0);
    let key = header.keyframe.expect("key frame carries keyframe info");
    assert_eq!(key.width, 320);
    assert_eq!(key.height, 240);
    assert_eq!(key.horizontal_scale, 0);
    assert_eq!(key.vertical_scale, 0);
}

#[test]
fn parse_interframe_minimal() {
    let bytes = build_interframe_bytes(1, false, 0);
    let header = parse_frame_header(&bytes).expect("minimal inter frame parses");
    assert_eq!(header.frame_type, Vp8FrameType::Inter);
    assert_eq!(header.version, 1);
    assert!(!header.show_frame);
    assert_eq!(header.first_partition_size, 0);
    assert!(header.keyframe.is_none());
}

#[test]
fn reject_short_input() {
    assert!(parse_frame_header(&[]).is_err());
    assert!(parse_frame_header(&[0x00]).is_err());
    assert!(parse_frame_header(&[0x00, 0x00]).is_err());
}

#[test]
fn reject_keyframe_short_input() {
    let bytes = vec![0x00, 0x00, 0x00];
    assert!(parse_frame_header(&bytes).is_err());
}

#[test]
fn reject_keyframe_bad_start_code() {
    let bytes = build_keyframe_bytes(KeyframeParams {
        start_code: [0x00, 0x00, 0x00],
        ..KeyframeParams::valid()
    });
    assert!(parse_frame_header(&bytes).is_err());
}

#[test]
fn reject_reserved_version() {
    for version in 4u8..=7 {
        let bytes = build_interframe_bytes(version, false, 0);
        assert!(
            parse_frame_header(&bytes).is_err(),
            "version {version} is reserved and must be rejected",
        );
    }
}

#[test]
fn reject_zero_dimension() {
    let width_zero = build_keyframe_bytes(KeyframeParams { width: 0, ..KeyframeParams::valid() });
    assert!(parse_frame_header(&width_zero).is_err());
    let height_zero = build_keyframe_bytes(KeyframeParams { height: 0, ..KeyframeParams::valid() });
    assert!(parse_frame_header(&height_zero).is_err());
}

#[test]
fn vp8_scales_and_partition_size() {
    let bytes = {
        let mut b = build_keyframe_bytes(KeyframeParams {
            version: 3,
            first_partition_size: 2,
            width: 100,
            horizontal_scale: 3,
            height: 50,
            vertical_scale: 1,
            ..KeyframeParams::valid()
        });
        b.extend_from_slice(&[0xAA, 0xBB]);
        b
    };
    let header = parse_frame_header(&bytes).expect("parses");
    assert_eq!(header.version, 3);
    assert_eq!(header.first_partition_size, 2);
    let key = header.keyframe.unwrap();
    assert_eq!((key.width, key.horizontal_scale), (100, 3));
    assert_eq!((key.height, key.vertical_scale), (50, 1));
    // one more byte of partition than there is data
    let mut short = build_interframe_bytes(0, true, 1);
    assert!(parse_frame_header(&short).is_err());
    short.push(0);
    assert!(parse_frame_header(&short).is_ok());
}

#[test]
fn vp08_box_defaults() {
    let config = Vp8SampleEntryConfig {
        level: None,
        video_full_range_flag: true,
        colour_primaries: 1,
        transfer_characteristics: 1,
        matrix_coefficients: 1,
        width: 640,
        height: 480,
        data_reference_index: 1,
    };
    let b = build_vp08_box(&config).unwrap();
    assert_eq!(b.vpcc_box.profile, 0);
    assert_eq!(b.vpcc_box.level, 0);
    assert_eq!(b.vpcc_box.bit_depth, 8);
    assert_eq!(b.vpcc_box.chroma_subsampling, 1);
    assert_eq!(b.vpcc_box.video_full_range_flag, 1);
    assert_eq!(b.visual.width, 640);
    assert_eq!(b.visual.horizresolution.integer, 72);
    assert!(b.vpcc_box.codec_initialization_data.is_empty());
}
