use mp4::boxes::{
    make_visual, AudioSampleEntryFields, Av01Box, Av1cBox, Avc1Box, AvccBox, BoxSize, BoxType, DopsBox,
    FixedPointNumber, Hev1Box, HvccBox, HvccNalUintArray, OpusBox, SampleEntry, UnknownBox, VpccBox,
};
use mp4::boxes_moov_tree::StsdBox;
use mp4::error::ErrorKind;

fn boxed(code: &[u8; 4], payload: &[u8]) -> Vec<u8> {
    let mut v = ((8 + payload.len()) as u32).to_be_bytes().to_vec();
    v.extend_from_slice(code);
    v.extend_from_slice(payload);
    v
}

fn dops() -> DopsBox {
    DopsBox { output_channel_count: 2, pre_skip: 312, input_sample_rate: 48000, output_gain: -1 }
}

fn base_avcc() -> AvccBox {
    AvccBox {
        avc_profile_indication: 66,
        profile_compatibility: 0xc0,
        avc_level_indication: 30,
        length_size_minus_one: 3,
        sps_list: vec![vec![0x67, 1, 2]],
        pps_list: vec![vec![0x68, 3]],
        chroma_format: None,
        bit_depth_luma_minus8: None,
        bit_depth_chroma_minus8: None,
        sps_ext_list: vec![],
    }
}

fn hvcc(arrays: Vec<HvccNalUintArray>) -> HvccBox {
    HvccBox {
        general_profile_space: 0,
        general_tier_flag: 0,
        general_profile_idc: 1,
        general_profile_compatibility_flags: 0x6000_0000,
        general_constraint_indicator_flags: 0x9000_0000_0000,
        general_level_idc: 93,
        min_spatial_segmentation_idc: 0,
        parallelism_type: 0,
        chroma_format_idc: 1,
        bit_depth_luma_minus8: 0,
        bit_depth_chroma_minus8: 0,
        avg_frame_rate: 0,
        constant_frame_rate: 0,
        num_temporal_layers: 1,
        temporal_id_nested: 1,
        length_size_minus_one: 3,
        nalu_arrays: arrays,
    }
}

fn vps_array() -> HvccNalUintArray {
    HvccNalUintArray { array_completeness: 1, nal_unit_type: 32, nalus: vec![vec![0x40, 0x01]] }
}

#[test]
fn dops_bytes() {
    let expected = boxed(b"dOps", &[0, 2, 0x01, 0x38, 0x00, 0x00, 0xbb, 0x80, 0xff, 0xff, 0]);
    assert_eq!(dops().encode(), expected);
}

#[test]
fn av1c_bytes() {
    let b = Av1cBox {
        seq_profile: 0,
        seq_level_idx_0: 8,
        seq_tier_0: 0,
        high_bitdepth: 0,
        twelve_bit: 0,
        monochrome: 0,
        chroma_subsampling_x: 1,
        chroma_subsampling_y: 1,
        chroma_sample_position: 0,
        initial_presentation_delay_minus_one: Some(3),
        config_obus: vec![0x0a, 0x0b],
    };
    assert_eq!(b.encode(), boxed(b"av1C", &[0x81, 0x08, 0x0c, 0x13, 0x0a, 0x0b]));
    let no_delay = Av1cBox { initial_presentation_delay_minus_one: None, config_obus: vec![], ..b };
    assert_eq!(no_delay.encode(), boxed(b"av1C", &[0x81, 0x08, 0x0c, 0x00]));
}

#[test]
fn vpcc_bytes_and_long_init_data() {
    let b = VpccBox {
        profile: 0,
        level: 31,
        bit_depth: 8,
        chroma_subsampling: 1,
        video_full_range_flag: 0,
        colour_primaries: 1,
        transfer_characteristics: 1,
        matrix_coefficients: 1,
        codec_initialization_data: vec![],
    };
    assert_eq!(b.encode().unwrap(), boxed(b"vpcC", &[1, 0, 0, 0, 0, 31, 0x82, 1, 1, 1, 0, 0]));
    let long = VpccBox { codec_initialization_data: vec![0; 0x10000], ..b };
    assert_eq!(long.encode().unwrap_err().kind, ErrorKind::InvalidInput);
}

#[test]
fn avcc_base_profile_bytes() {
    let expected = boxed(b"avcC", &[1, 66, 0xc0, 30, 0xff, 0xe1, 0, 3, 0x67, 1, 2, 1, 0, 2, 0x68, 3]);
    assert_eq!(base_avcc().encode().unwrap(), expected);
}

#[test]
fn avcc_high_profile_needs_chroma_fields() {
    let high = AvccBox { avc_profile_indication: 100, ..base_avcc() };
    assert_eq!(high.encode().unwrap_err().kind, ErrorKind::InvalidInput);
    let full = AvccBox {
        chroma_format: Some(1),
        bit_depth_luma_minus8: Some(2),
        bit_depth_chroma_minus8: Some(2),
        ..high
    };
    let expected = boxed(
        b"avcC",
        &[1, 100, 0xc0, 30, 0xff, 0xe1, 0, 3, 0x67, 1, 2, 1, 0, 2, 0x68, 3, 0xfd, 0xfa, 0xfa, 0],
    );
    assert_eq!(full.encode().unwrap(), expected);
}

#[test]
fn avcc_count_and_length_limits() {
    let many_sps = AvccBox { sps_list: vec![vec![0x67]; 32], ..base_avcc() };
    assert_eq!(many_sps.encode().unwrap_err().kind, ErrorKind::InvalidInput);
    let max_sps = AvccBox { sps_list: vec![vec![0x67]; 31], ..base_avcc() };
    let bytes = max_sps.encode().unwrap();
    assert_eq!(bytes[13], 0xe0 | 31);
    let long_pps = AvccBox { pps_list: vec![vec![0x68; 0x10000]], ..base_avcc() };
    assert_eq!(long_pps.encode().unwrap_err().kind, ErrorKind::InvalidInput);
    let many_pps = AvccBox { pps_list: vec![vec![0x68]; 256], ..base_avcc() };
    assert_eq!(many_pps.encode().unwrap_err().kind, ErrorKind::InvalidInput);
}

#[test]
fn hvcc_bytes() {
    let expected = boxed(
        b"hvcC",
        &[
            1, 0x01, 0x60, 0, 0, 0, 0x90, 0, 0, 0, 0, 0, 93, 0xf0, 0x00, 0xfc, 0xfd, 0xf8, 0xf8, 0, 0, 0x0f, 1,
            0xa0, 0, 1, 0, 2, 0x40, 0x01,
        ],
    );
    assert_eq!(hvcc(vec![vps_array()]).encode().unwrap(), expected);
}

#[test]
fn hvcc_limits() {
    assert_eq!(hvcc(vec![vps_array(); 256]).encode().unwrap_err().kind, ErrorKind::InvalidInput);
    let long = HvccNalUintArray { nalus: vec![vec![0x40; 0x10000]], ..vps_array() };
    assert_eq!(hvcc(vec![long]).encode().unwrap_err().kind, ErrorKind::InvalidInput);
    let entry = SampleEntry::Hev1(Hev1Box {
        visual: make_visual(1, 320, 240),
        hvcc_box: hvcc(vec![vps_array(); 256]),
        unknown_boxes: vec![],
    });
    assert_eq!(entry.encode().unwrap_err().kind, ErrorKind::InvalidInput);
}

#[test]
fn avc1_entry_layout() {
    let entry = Avc1Box { visual: make_visual(1, 640, 360), avcc_box: base_avcc(), unknown_boxes: vec![] };
    let bytes = entry.encode().unwrap();
    assert_eq!(bytes.len(), 8 + 78 + 24);
    assert_eq!(&bytes[0..8], &[0, 0, 0, 110, b'a', b'v', b'c', b'1']);
    assert_eq!(&bytes[8..16], &[0, 0, 0, 0, 0, 0, 0, 1]);
    assert_eq!(&bytes[16..32], &[0; 16]);
    assert_eq!(&bytes[32..36], &[0x02, 0x80, 0x01, 0x68]);
    assert_eq!(&bytes[36..44], &[0, 72, 0, 0, 0, 72, 0, 0]);
    assert_eq!(&bytes[44..50], &[0, 0, 0, 0, 0, 1]);
    assert_eq!(&bytes[50..82], &[0; 32]);
    assert_eq!(&bytes[82..86], &[0, 0x18, 0xff, 0xff]);
    assert_eq!(&bytes[86..], base_avcc().encode().unwrap().as_slice());
    assert_eq!(SampleEntry::Avc1(entry).encode().unwrap(), bytes);
}

#[test]
fn av01_entry_keeps_other_children() {
    let other = UnknownBox { box_type: BoxType::Normal(*b"colr"), box_size: BoxSize::U32(10), payload: vec![7, 8] };
    let av1c = Av1cBox {
        seq_profile: 0,
        seq_level_idx_0: 0,
        seq_tier_0: 0,
        high_bitdepth: 0,
        twelve_bit: 0,
        monochrome: 0,
        chroma_subsampling_x: 1,
        chroma_subsampling_y: 1,
        chroma_sample_position: 0,
        initial_presentation_delay_minus_one: None,
        config_obus: vec![],
    };
    let entry = Av01Box { visual: make_visual(1, 16, 16), av1c_box: av1c.clone(), unknown_boxes: vec![other.clone()] };
    let bytes = entry.encode();
    assert_eq!(&bytes[4..8], b"av01");
    assert_eq!(bytes.len(), 8 + 78 + 12 + 10);
    assert_eq!(&bytes[86..98], av1c.encode().as_slice());
    assert_eq!(&bytes[98..], other.encode().as_slice());
}

#[test]
fn opus_entry_layout() {
    let entry = OpusBox {
        audio: AudioSampleEntryFields {
            data_reference_index: 1,
            channelcount: 2,
            samplesize: 16,
            samplerate: FixedPointNumber { integer: 48000, fraction: 0 },
        },
        dops_box: dops(),
        unknown_boxes: vec![],
    };
    let bytes = entry.encode();
    assert_eq!(bytes.len(), 8 + 28 + 19);
    assert_eq!(&bytes[4..8], b"Opus");
    assert_eq!(
        &bytes[8..36],
        &[0, 0, 0, 0, 0, 0, 0, 1, 0, 0, 0, 0, 0, 0, 0, 0, 0, 2, 0, 16, 0, 0, 0, 0, 0xbb, 0x80, 0, 0]
    );
    assert_eq!(&bytes[36..], dops().encode().as_slice());
}

#[test]
fn stsd_writes_entries_back() {
    let raw = UnknownBox { box_type: BoxType::Normal(*b"mp4a"), box_size: BoxSize::U32(12), payload: vec![1, 2, 3, 4] };
    let stsd = StsdBox { entries: vec![SampleEntry::Unknown(raw)] };
    let bytes = stsd.encode().unwrap();
    assert_eq!(
        bytes,
        vec![0, 0, 0, 28, b's', b't', b's', b'd', 0, 0, 0, 0, 0, 0, 0, 1, 0, 0, 0, 12, b'm', b'p', b'4', b'a', 1, 2, 3, 4]
    );
    let (back, n) = StsdBox::decode(&bytes).unwrap();
    assert_eq!(n, bytes.len());
    assert_eq!(back, stsd);
    // an entry that cannot be written fails the whole box
    let bad = StsdBox {
        entries: vec![SampleEntry::Avc1(Avc1Box {
            visual: make_visual(1, 16, 16),
            avcc_box: AvccBox { avc_profile_indication: 100, ..base_avcc() },
            unknown_boxes: vec![],
        })],
    };
    assert_eq!(bad.encode().unwrap_err().kind, ErrorKind::InvalidInput);
}
