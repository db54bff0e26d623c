//! VP8: the uncompressed data chunk of a frame (RFC 6386 section 9.1) and
//! the `vp08` / `vpcC` sample entry.
use vstd::prelude::*;

use crate::boxes::{is_default_visual, make_visual, SampleEntry, Vp08Box, VpccBox};
use crate::sample_entries::{sample_entry_fits, sample_entry_ok};
use crate::error::{Error, ErrorKind};

verus! {

/// Frame type of a VP8 frame.
#[derive(Debug, Clone, Copy, PartialEq, Eq, Hash, Structural)]
pub enum Vp8FrameType {
    /// Key frame (`frame_type == 0`).
    Key,
    /// Inter frame (`frame_type == 1`).
    Inter,
}

/// The frame tag of a VP8 frame, plus the key frame information.
#[derive(Debug, Clone, PartialEq, Eq, Hash)]
pub struct Vp8FrameHeader {
    /// Key or inter frame.
    pub frame_type: Vp8FrameType,
    /// `version` (3 bits; 0..=3 are defined).
    pub version: u8,
    /// `show_frame`.
    pub show_frame: bool,
    /// Size of the first data partition (19 bits).
    pub first_partition_size: u32,
    /// Key frame information; `None` for inter frames.
    pub keyframe: Option<Vp8KeyFrameInfo>,
}

/// Start code, size and scaling of a key frame.
#[derive(Debug, Clone, Copy, PartialEq, Eq, Hash)]
pub struct Vp8KeyFrameInfo {
    /// Width (14 bits, 1..=16383).
    pub width: u16,
    /// Height (14 bits, 1..=16383).
    pub height: u16,
    /// Horizontal scale (2 bits).
    pub horizontal_scale: u8,
    /// Vertical scale (2 bits).
    pub vertical_scale: u8,
}

/// The 24 bit little-endian frame tag.
pub open spec fn vp8_tag(s: Seq<u8>) -> nat {
    s[0] as nat + 256 * s[1] as nat + 65536 * s[2] as nat
}

/// The key frame information carried by bytes 3..10, if the start code matches.
pub open spec fn vp8_keyframe_info(s: Seq<u8>) -> Vp8KeyFrameInfo {
    let w = s[6] as nat + 256 * s[7] as nat;
    let h = s[8] as nat + 256 * s[9] as nat;
    Vp8KeyFrameInfo {
        width: (w % 16384) as u16,
        height: (h % 16384) as u16,
        horizontal_scale: (w / 16384) as u8,
        vertical_scale: (h / 16384) as u8,
    }
}

/// The frame header of a VP8 frame, or `None` where the frame is rejected:
/// shorter than the 3 byte tag; version 4..=7; a key frame shorter than 10
/// bytes, without the `9D 01 2A` start code, or of zero width or height; a
/// first partition larger than what follows the uncompressed chunk.
pub open spec fn vp8_frame_header_spec(s: Seq<u8>) -> Option<Vp8FrameHeader> {
    if s.len() < 3 {
        None
    } else {
        let tag = vp8_tag(s);
        let version = (tag / 2) % 8;
        let first_partition_size = tag / 32;
        let key = tag % 2 == 0;
        if version >= 4 {
            None
        } else if key && (s.len() < 10 || s[3] != 0x9d || s[4] != 0x01 || s[5] != 0x2a
            || vp8_keyframe_info(s).width == 0 || vp8_keyframe_info(s).height == 0) {
            None
        } else if first_partition_size > s.len() - (if key { 10int } else { 3int }) {
            None
        } else {
            Some(
                Vp8FrameHeader {
                    frame_type: if key { Vp8FrameType::Key } else { Vp8FrameType::Inter },
                    version: version as u8,
                    show_frame: (tag / 16) % 2 == 1,
                    first_partition_size: first_partition_size as u32,
                    keyframe: if key { Some(vp8_keyframe_info(s)) } else { None },
                },
            )
        }
    }
}

/// Parses the uncompressed data chunk at the start of a VP8 frame.
pub fn parse_frame_header(input: &[u8]) -> (r: Result<Vp8FrameHeader, Error>)
    ensures
        r is Ok <==> vp8_frame_header_spec(input@) is Some,
        r matches Ok(h) ==> vp8_frame_header_spec(input@) == Some(h),
        r matches Err(e) ==> e.kind == ErrorKind::InvalidInput,
{
    let len = input.len();
    if len < 3 {
        return Err(Error::invalid_input("VP8 frame tag requires 3 bytes"));
    }
    let tag: u32 = input[0] as u32 + 256 * (input[1] as u32) + 65536 * (input[2] as u32);
    let frame_type_bit = tag % 2;
    let version = ((tag / 2) % 8) as u8;
    let show_frame = (tag / 16) % 2 == 1;
    let first_partition_size = tag / 32;
    if version >= 4 {
        return Err(Error::invalid_input("VP8 version 4..=7 is reserved"));
    }
    let frame_type = if frame_type_bit == 0 {
        Vp8FrameType::Key
    } else {
        Vp8FrameType::Inter
    };
    let keyframe = if frame_type_bit == 0 {
        if len < 10 {
            return Err(
                Error::invalid_input(
                    "VP8 keyframe requires 10 bytes (frame tag + start code + width + height)",
                ),
            );
        }
        if input[3] != 0x9d || input[4] != 0x01 || input[5] != 0x2a {
            return Err(
                Error::invalid_input("VP8 keyframe start code mismatch (expected 0x9D 0x01 0x2A)"),
            );
        }
        let width_field: u32 = input[6] as u32 + 256 * (input[7] as u32);
        let height_field: u32 = input[8] as u32 + 256 * (input[9] as u32);
        let width = (width_field % 16384) as u16;
        let height = (height_field % 16384) as u16;
        let horizontal_scale = (width_field / 16384) as u8;
        let vertical_scale = (height_field / 16384) as u8;
        if width == 0 || height == 0 {
            return Err(Error::invalid_input("VP8 keyframe width or height is zero"));
        }
        Some(Vp8KeyFrameInfo { width, height, horizontal_scale, vertical_scale })
    } else {
        None
    };
    let uncompressed_chunk_size: usize = if frame_type_bit == 0 {
        10
    } else {
        3
    };
    let remaining = len - uncompressed_chunk_size;
    if first_partition_size as usize > remaining {
        return Err(Error::invalid_input("VP8 first_partition_size exceeds input size"));
    }
    Ok(Vp8FrameHeader { frame_type, version, show_frame, first_partition_size, keyframe })
}

/// Settings of a `vp08` sample entry that the stream does not fix.
#[derive(Debug, Clone, PartialEq, Eq, Hash)]
pub struct Vp8SampleEntryConfig {
    /// Level; `None` writes 0 (unspecified).
    pub level: Option<u8>,
    /// Full range video.
    pub video_full_range_flag: bool,
    /// ColourPrimaries (ISO/IEC 23001-8).
    pub colour_primaries: u8,
    /// TransferCharacteristics (ISO/IEC 23001-8).
    pub transfer_characteristics: u8,
    /// MatrixCoefficients (ISO/IEC 23001-8).
    pub matrix_coefficients: u8,
    /// Width bound of every sample of the entry.
    pub width: u16,
    /// Height bound of every sample of the entry.
    pub height: u16,
    /// 1-based `dref` entry index (never 0).
    pub data_reference_index: u16,
}

/// Builds a `vp08` sample entry: profile 0, 8 bit, 4:2:0 colocated
/// (`chroma_subsampling` 1), empty codec initialization data, the default
/// visual fields, and the caller's level (0 when unspecified), range, colour
/// description, size and `dref` index.
pub fn build_vp08_box(config: &Vp8SampleEntryConfig) -> (r: Result<Vp08Box, Error>)
    ensures
        r matches Ok(b) ==> sample_entry_fits(SampleEntry::Vp08(b)) && sample_entry_ok(SampleEntry::Vp08(b)),
        r matches Ok(b) && {
            &&& b.vpcc_box.profile == 0
            &&& b.vpcc_box.level == (match config.level {
                Some(l) => l,
                None => 0u8,
            })
            &&& b.vpcc_box.bit_depth == 8
            &&& b.vpcc_box.chroma_subsampling == 1
            &&& b.vpcc_box.video_full_range_flag == (if config.video_full_range_flag { 1u8 } else { 0u8 })
            &&& b.vpcc_box.colour_primaries == config.colour_primaries
            &&& b.vpcc_box.transfer_characteristics == config.transfer_characteristics
            &&& b.vpcc_box.matrix_coefficients == config.matrix_coefficients
            &&& b.vpcc_box.codec_initialization_data@.len() == 0
            &&& is_default_visual(b.visual, config.data_reference_index, config.width, config.height)
            &&& b.unknown_boxes@.len() == 0
        },
{
    let level = match config.level {
        Some(l) => l,
        None => 0,
    };
    let vpcc_box = VpccBox {
        profile: 0,
        level,
        bit_depth: 8,
        chroma_subsampling: 1,
        video_full_range_flag: if config.video_full_range_flag {
            1
        } else {
            0
        },
        colour_primaries: config.colour_primaries,
        transfer_characteristics: config.transfer_characteristics,
        matrix_coefficients: config.matrix_coefficients,
        codec_initialization_data: Vec::new(),
    };
    let visual = make_visual(config.data_reference_index, config.width, config.height);
    Ok(Vp08Box { visual, vpcc_box, unknown_boxes: Vec::new() })
}

} // verus!
