//! Sample entry boxes and the small value types they are built from.
use vstd::prelude::*;

verus! {

/// Four character (or UUID) type of a box.
#[derive(Debug, Clone, Copy, PartialEq, Eq, Hash)]
pub enum BoxType {
    /// Ordinary four character code.
    Normal([u8; 4]),
    /// `uuid` extended type.
    Uuid([u8; 16]),
}

impl BoxType {
    /// The bytes of the type code.
    pub fn as_bytes(&self) -> (r: &[u8])
        ensures
            match *self {
                BoxType::Normal(b) => r@ == b@,
                BoxType::Uuid(b) => r@ == b@,
            },
    {
        match self {
            BoxType::Normal(b) => b.as_slice(),
            BoxType::Uuid(b) => b.as_slice(),
        }
    }
}

/// Size field of a box header.
#[derive(Debug, Clone, Copy, PartialEq, Eq, Hash)]
pub enum BoxSize {
    /// 32 bit size.
    U32(u32),
    /// 64 bit (`largesize`) size.
    U64(u64),
}

/// A box this crate does not interpret, kept as raw payload.
#[derive(Debug, Clone, PartialEq, Eq, Hash)]
pub struct UnknownBox {
    /// Box type.
    pub box_type: BoxType,
    /// Size as written in the header.
    pub box_size: BoxSize,
    /// Payload bytes after the header.
    pub payload: Vec<u8>,
}

/// Fixed point number made of an integer part and a fraction part.
#[derive(Debug, Default, Clone, Copy, PartialEq, Eq, Hash)]
pub struct FixedPointNumber<I, F> {
    /// Integer part.
    pub integer: I,
    /// Fraction part.
    pub fraction: F,
}

/// One of two alternatives.
#[derive(Debug, Clone, PartialEq, Eq, Hash)]
pub enum Either<A, B> {
    /// First alternative.
    A(A),
    /// Second alternative.
    B(B),
}

/// Fields common to visual sample entries.
#[derive(Debug, Clone, Copy, PartialEq, Eq, Hash)]
pub struct VisualSampleEntryFields {
    /// 1-based index into `dref` (never 0).
    pub data_reference_index: u16,
    /// Width in pixels.
    pub width: u16,
    /// Height in pixels.
    pub height: u16,
    /// Horizontal resolution (pixels per inch).
    pub horizresolution: FixedPointNumber<u16, u16>,
    /// Vertical resolution (pixels per inch).
    pub vertresolution: FixedPointNumber<u16, u16>,
    /// Frames per sample.
    pub frame_count: u16,
    /// Compressor name (length-prefixed, padded to 32 bytes).
    pub compressorname: [u8; 32],
    /// Colour depth.
    pub depth: u16,
}

/// Default `data_reference_index` (the single local `dref` entry).
pub const DEFAULT_DATA_REFERENCE_INDEX: u16 = 1;

/// Default `frame_count`.
pub const DEFAULT_FRAME_COUNT: u16 = 1;

/// Default `depth` (colour images without alpha).
pub const DEFAULT_DEPTH: u16 = 0x0018;

/// Default `samplesize` of audio sample entries.
pub const DEFAULT_SAMPLESIZE: u16 = 16;

/// The visual fields that the sample entry builders fill in: 72 dpi, one
/// frame per sample, an empty compressor name, depth 0x18, and the given
/// index and size.
pub open spec fn is_default_visual(v: VisualSampleEntryFields, data_reference_index: u16, width: u16, height: u16) -> bool {
    &&& v.data_reference_index == data_reference_index
    &&& v.width == width
    &&& v.height == height
    &&& v.horizresolution == FixedPointNumber::<u16, u16> { integer: 72, fraction: 0 }
    &&& v.vertresolution == FixedPointNumber::<u16, u16> { integer: 72, fraction: 0 }
    &&& v.frame_count == DEFAULT_FRAME_COUNT
    &&& v.compressorname@ == Seq::new(32, |i: int| 0u8)
    &&& v.depth == DEFAULT_DEPTH
}

/// Builds the visual fields described by [`is_default_visual`].
pub fn make_visual(data_reference_index: u16, width: u16, height: u16) -> (r: VisualSampleEntryFields)
    ensures
        is_default_visual(r, data_reference_index, width, height),
{
    let compressorname = [0u8; 32];
    proof {
        assert(compressorname@ =~= Seq::new(32, |i: int| 0u8));
    }
    VisualSampleEntryFields {
        data_reference_index,
        width,
        height,
        horizresolution: FixedPointNumber { integer: 72, fraction: 0 },
        vertresolution: FixedPointNumber { integer: 72, fraction: 0 },
        frame_count: DEFAULT_FRAME_COUNT,
        compressorname,
        depth: DEFAULT_DEPTH,
    }
}

/// Fields common to audio sample entries.
#[derive(Debug, Clone, Copy, PartialEq, Eq, Hash)]
pub struct AudioSampleEntryFields {
    /// 1-based index into `dref` (never 0).
    pub data_reference_index: u16,
    /// Number of channels.
    pub channelcount: u16,
    /// Bits per sample.
    pub samplesize: u16,
    /// Sample rate in Hz as 16.16 fixed point.
    pub samplerate: FixedPointNumber<u16, u16>,
}

/// `avcC` (AVCDecoderConfigurationRecord).
#[derive(Debug, Clone, PartialEq, Eq, Hash)]
pub struct AvccBox {
    /// `AVCProfileIndication`
    pub avc_profile_indication: u8,
    /// `profile_compatibility`
    pub profile_compatibility: u8,
    /// `AVCLevelIndication`
    pub avc_level_indication: u8,
    /// `lengthSizeMinusOne` (2 bits)
    pub length_size_minus_one: u8,
    /// SPS NAL units
    pub sps_list: Vec<Vec<u8>>,
    /// PPS NAL units
    pub pps_list: Vec<Vec<u8>>,
    /// `chroma_format` (2 bits), present outside profiles 66 / 77 / 88
    pub chroma_format: Option<u8>,
    /// `bit_depth_luma_minus8` (3 bits)
    pub bit_depth_luma_minus8: Option<u8>,
    /// `bit_depth_chroma_minus8` (3 bits)
    pub bit_depth_chroma_minus8: Option<u8>,
    /// SPS extension NAL units
    pub sps_ext_list: Vec<Vec<u8>>,
}

/// `avc1` sample entry.
#[derive(Debug, Clone, PartialEq, Eq, Hash)]
pub struct Avc1Box {
    /// Visual sample entry fields.
    pub visual: VisualSampleEntryFields,
    /// Decoder configuration.
    pub avcc_box: AvccBox,
    /// Other child boxes.
    pub unknown_boxes: Vec<UnknownBox>,
}

/// One NAL unit array of `hvcC`.
#[derive(Debug, Clone, PartialEq, Eq, Hash)]
pub struct HvccNalUintArray {
    /// `array_completeness` (1 bit)
    pub array_completeness: u8,
    /// `NAL_unit_type` (6 bits)
    pub nal_unit_type: u8,
    /// The NAL units.
    pub nalus: Vec<Vec<u8>>,
}

/// `hvcC` (HEVCDecoderConfigurationRecord).
#[derive(Debug, Clone, PartialEq, Eq, Hash)]
pub struct HvccBox {
    /// `general_profile_space` (2 bits)
    pub general_profile_space: u8,
    /// `general_tier_flag` (1 bit)
    pub general_tier_flag: u8,
    /// `general_profile_idc` (5 bits)
    pub general_profile_idc: u8,
    /// `general_profile_compatibility_flags`
    pub general_profile_compatibility_flags: u32,
    /// `general_constraint_indicator_flags` (48 bits)
    pub general_constraint_indicator_flags: u64,
    /// `general_level_idc`
    pub general_level_idc: u8,
    /// `min_spatial_segmentation_idc` (12 bits)
    pub min_spatial_segmentation_idc: u16,
    /// `parallelismType` (2 bits)
    pub parallelism_type: u8,
    /// `chroma_format_idc` (2 bits)
    pub chroma_format_idc: u8,
    /// `bit_depth_luma_minus8` (3 bits)
    pub bit_depth_luma_minus8: u8,
    /// `bit_depth_chroma_minus8` (3 bits)
    pub bit_depth_chroma_minus8: u8,
    /// `avgFrameRate`
    pub avg_frame_rate: u16,
    /// `constantFrameRate` (2 bits)
    pub constant_frame_rate: u8,
    /// `numTemporalLayers` (3 bits)
    pub num_temporal_layers: u8,
    /// `temporalIdNested` (1 bit)
    pub temporal_id_nested: u8,
    /// `lengthSizeMinusOne` (2 bits)
    pub length_size_minus_one: u8,
    /// NAL unit arrays.
    pub nalu_arrays: Vec<HvccNalUintArray>,
}

/// `hev1` sample entry.
#[derive(Debug, Clone, PartialEq, Eq, Hash)]
pub struct Hev1Box {
    /// Visual sample entry fields.
    pub visual: VisualSampleEntryFields,
    /// Decoder configuration.
    pub hvcc_box: HvccBox,
    /// Other child boxes.
    pub unknown_boxes: Vec<UnknownBox>,
}

/// `hvc1` sample entry.
#[derive(Debug, Clone, PartialEq, Eq, Hash)]
pub struct Hvc1Box {
    /// Visual sample entry fields.
    pub visual: VisualSampleEntryFields,
    /// Decoder configuration.
    pub hvcc_box: HvccBox,
    /// Other child boxes.
    pub unknown_boxes: Vec<UnknownBox>,
}

/// `vpcC` (VP codec configuration).
#[derive(Debug, Clone, PartialEq, Eq, Hash)]
pub struct VpccBox {
    /// profile
    pub profile: u8,
    /// level
    pub level: u8,
    /// bitDepth (4 bits)
    pub bit_depth: u8,
    /// chromaSubsampling (3 bits)
    pub chroma_subsampling: u8,
    /// videoFullRangeFlag (1 bit)
    pub video_full_range_flag: u8,
    /// colourPrimaries
    pub colour_primaries: u8,
    /// transferCharacteristics
    pub transfer_characteristics: u8,
    /// matrixCoefficients
    pub matrix_coefficients: u8,
    /// codecInitializationData
    pub codec_initialization_data: Vec<u8>,
}

/// `vp08` sample entry.
#[derive(Debug, Clone, PartialEq, Eq, Hash)]
pub struct Vp08Box {
    /// Visual sample entry fields.
    pub visual: VisualSampleEntryFields,
    /// Codec configuration.
    pub vpcc_box: VpccBox,
    /// Other child boxes.
    pub unknown_boxes: Vec<UnknownBox>,
}

/// `vp09` sample entry.
#[derive(Debug, Clone, PartialEq, Eq, Hash)]
pub struct Vp09Box {
    /// Visual sample entry fields.
    pub visual: VisualSampleEntryFields,
    /// Codec configuration.
    pub vpcc_box: VpccBox,
    /// Other child boxes.
    pub unknown_boxes: Vec<UnknownBox>,
}

/// `av1C` (AV1 codec configuration).
#[derive(Debug, Clone, PartialEq, Eq, Hash)]
pub struct Av1cBox {
    /// seq_profile (3 bits)
    pub seq_profile: u8,
    /// seq_level_idx_0 (5 bits)
    pub seq_level_idx_0: u8,
    /// seq_tier_0 (1 bit)
    pub seq_tier_0: u8,
    /// high_bitdepth (1 bit)
    pub high_bitdepth: u8,
    /// twelve_bit (1 bit)
    pub twelve_bit: u8,
    /// monochrome (1 bit)
    pub monochrome: u8,
    /// chroma_subsampling_x (1 bit)
    pub chroma_subsampling_x: u8,
    /// chroma_subsampling_y (1 bit)
    pub chroma_subsampling_y: u8,
    /// chroma_sample_position (2 bits)
    pub chroma_sample_position: u8,
    /// initial_presentation_delay_minus_one (4 bits) when present
    pub initial_presentation_delay_minus_one: Option<u8>,
    /// configOBUs
    pub config_obus: Vec<u8>,
}

/// `av01` sample entry.
#[derive(Debug, Clone, PartialEq, Eq, Hash)]
pub struct Av01Box {
    /// Visual sample entry fields.
    pub visual: VisualSampleEntryFields,
    /// Codec configuration.
    pub av1c_box: Av1cBox,
    /// Other child boxes.
    pub unknown_boxes: Vec<UnknownBox>,
}

/// `dOps` (Opus specific box), channel mapping family 0.
#[derive(Debug, Clone, Copy, PartialEq, Eq, Hash)]
pub struct DopsBox {
    /// OutputChannelCount
    pub output_channel_count: u8,
    /// PreSkip
    pub pre_skip: u16,
    /// InputSampleRate
    pub input_sample_rate: u32,
    /// OutputGain
    pub output_gain: i16,
}

/// `Opus` sample entry.
#[derive(Debug, Clone, PartialEq, Eq, Hash)]
pub struct OpusBox {
    /// Audio sample entry fields.
    pub audio: AudioSampleEntryFields,
    /// Opus specific box.
    pub dops_box: DopsBox,
    /// Other child boxes.
    pub unknown_boxes: Vec<UnknownBox>,
}

/// A sample entry of `stsd`.
#[derive(Debug, Clone, PartialEq, Eq, Hash)]
pub enum SampleEntry {
    /// `avc1`
    Avc1(Avc1Box),
    /// `hev1`
    Hev1(Hev1Box),
    /// `hvc1`
    Hvc1(Hvc1Box),
    /// `vp08`
    Vp08(Vp08Box),
    /// `vp09`
    Vp09(Vp09Box),
    /// `av01`
    Av01(Av01Box),
    /// `Opus`
    Opus(OpusBox),
    /// Any other sample entry, kept raw.
    Unknown(UnknownBox),
}

impl SampleEntry {
    /// Box type of the entry.
    pub fn box_type(&self) -> (r: BoxType)
        ensures
            match *self {
                SampleEntry::Avc1(_) => r == BoxType::Normal([0x61u8, 0x76, 0x63, 0x31]),
                SampleEntry::Hev1(_) => r == BoxType::Normal([0x68u8, 0x65, 0x76, 0x31]),
                SampleEntry::Hvc1(_) => r == BoxType::Normal([0x68u8, 0x76, 0x63, 0x31]),
                SampleEntry::Vp08(_) => r == BoxType::Normal([0x76u8, 0x70, 0x30, 0x38]),
                SampleEntry::Vp09(_) => r == BoxType::Normal([0x76u8, 0x70, 0x30, 0x39]),
                SampleEntry::Av01(_) => r == BoxType::Normal([0x61u8, 0x76, 0x30, 0x31]),
                SampleEntry::Opus(_) => r == BoxType::Normal([0x4fu8, 0x70, 0x75, 0x73]),
                SampleEntry::Unknown(b) => r == b.box_type,
            },
    {
        match self {
            SampleEntry::Avc1(_) => BoxType::Normal([0x61u8, 0x76, 0x63, 0x31]),
            SampleEntry::Hev1(_) => BoxType::Normal([0x68u8, 0x65, 0x76, 0x31]),
            SampleEntry::Hvc1(_) => BoxType::Normal([0x68u8, 0x76, 0x63, 0x31]),
            SampleEntry::Vp08(_) => BoxType::Normal([0x76u8, 0x70, 0x30, 0x38]),
            SampleEntry::Vp09(_) => BoxType::Normal([0x76u8, 0x70, 0x30, 0x39]),
            SampleEntry::Av01(_) => BoxType::Normal([0x61u8, 0x76, 0x30, 0x31]),
            SampleEntry::Opus(_) => BoxType::Normal([0x4fu8, 0x70, 0x75, 0x73]),
            SampleEntry::Unknown(b) => b.box_type,
        }
    }
}

/// Copies a list of byte strings.
pub fn copy_byte_lists(list: &[Vec<u8>]) -> (r: Vec<Vec<u8>>)
    ensures
        r@.len() == list@.len(),
        forall|i: int| 0 <= i < list@.len() ==> #[trigger] r@[i]@ == list@[i]@,
{
    let mut out: Vec<Vec<u8>> = Vec::new();
    let mut i: usize = 0;
    while i < list.len()
        invariant
            i <= list@.len(),
            out@.len() == i,
            forall|j: int| 0 <= j < i ==> #[trigger] out@[j]@ == list@[j]@,
        decreases list@.len() - i,
    {
        let item = vstd::slice::slice_to_vec(list[i].as_slice());
        out.push(item);
        i += 1;
    }
    out
}

} // verus!
