//! Encoding of the `stsd` sample entries and their codec configuration
//! boxes: the visual and audio sample entry fields (ISO/IEC 14496-12
//! 12.1.3, 12.2.3), `avcC` and `hvcC` (ISO/IEC 14496-15), `vpcC` (VP codec
//! ISO-BMFF binding), `av1C` (AV1 ISO-BMFF binding) and `dOps` (Opus in
//! ISO-BMFF). A field that the format packs into fewer bits than its Rust
//! type holds must fit those bits; a list whose count or length field it
//! outgrows makes the encoder fail with [`ErrorKind::InvalidInput`].
use vstd::prelude::*;

use crate::boxes::{
    AudioSampleEntryFields, Av01Box, Av1cBox, Avc1Box, AvccBox, BoxType, DopsBox, Hev1Box, Hvc1Box, HvccBox,
    HvccNalUintArray, OpusBox, SampleEntry, UnknownBox, VisualSampleEntryFields, Vp08Box, Vp09Box, VpccBox,
};
use crate::boxes_moov_tree::twos;
use crate::codec::{
    box_bytes, concat_records, encode_unknown_boxes, lemma_be_bytes_len, lemma_concat_records_push, put_be,
    put_box, put_bytes, unknown_box_bytes, unknown_boxes_bytes,
};
use crate::containers::lemma_box_bytes_len;
use crate::error::{Error, ErrorKind};
use crate::header_boxes::{put_zeros, zeros};
use crate::h264::{avc1_box_of, avc1_inputs_ok, byte_lists, h264_parse_sps_spec, lemma_h264_sps_bounds};
use crate::h265::{h265_parse_sps_spec, hvcc_inputs_ok, hvcc_of, lemma_h265_sps_bounds};
use crate::nal::{be_bytes, LengthSize};

verus! {

/// The visual sample entry fields: six reserved bytes, the data reference
/// index, 16 reserved / pre-defined bytes, width, height, the two
/// resolutions (16.16), 4 reserved bytes, the frame count, the compressor
/// name, the depth and a pre-defined -1.
pub open spec fn visual_fields_bytes(v: VisualSampleEntryFields) -> Seq<u8> {
    zeros(6) + be_bytes(v.data_reference_index as nat, 2) + zeros(16) + be_bytes(v.width as nat, 2) + be_bytes(
        v.height as nat,
        2,
    ) + be_bytes(v.horizresolution.integer as nat, 2) + be_bytes(v.horizresolution.fraction as nat, 2)
        + be_bytes(v.vertresolution.integer as nat, 2) + be_bytes(v.vertresolution.fraction as nat, 2) + zeros(4)
        + be_bytes(v.frame_count as nat, 2) + v.compressorname@ + be_bytes(v.depth as nat, 2) + seq![0xffu8, 0xffu8]
}

/// Appends the visual sample entry fields.
pub fn put_visual_fields(out: &mut Vec<u8>, v: &VisualSampleEntryFields)
    ensures
        final(out)@ == old(out)@ + visual_fields_bytes(*v),
{
    put_zeros(out, 6);
    put_be(out, v.data_reference_index as u64, 2);
    put_zeros(out, 16);
    put_be(out, v.width as u64, 2);
    put_be(out, v.height as u64, 2);
    put_be(out, v.horizresolution.integer as u64, 2);
    put_be(out, v.horizresolution.fraction as u64, 2);
    put_be(out, v.vertresolution.integer as u64, 2);
    put_be(out, v.vertresolution.fraction as u64, 2);
    put_zeros(out, 4);
    put_be(out, v.frame_count as u64, 2);
    put_bytes(out, v.compressorname.as_slice());
    put_be(out, v.depth as u64, 2);
    out.push(0xff);
    out.push(0xff);
    proof {
        assert(final(out)@ =~= old(out)@ + visual_fields_bytes(*v)) by {
            assert(out@ =~= old(out)@ + visual_fields_bytes(*v));
        }
    }
}

/// The audio sample entry fields: six reserved bytes, the data reference
/// index, 8 reserved bytes, the channel count, the sample size, 4
/// pre-defined / reserved bytes and the sample rate (16.16).
pub open spec fn audio_fields_bytes(a: AudioSampleEntryFields) -> Seq<u8> {
    zeros(6) + be_bytes(a.data_reference_index as nat, 2) + zeros(8) + be_bytes(a.channelcount as nat, 2) + be_bytes(
        a.samplesize as nat,
        2,
    ) + zeros(4) + be_bytes(a.samplerate.integer as nat, 2) + be_bytes(a.samplerate.fraction as nat, 2)
}

/// Appends the audio sample entry fields.
pub fn put_audio_fields(out: &mut Vec<u8>, a: &AudioSampleEntryFields)
    ensures
        final(out)@ == old(out)@ + audio_fields_bytes(*a),
{
    put_zeros(out, 6);
    put_be(out, a.data_reference_index as u64, 2);
    put_zeros(out, 8);
    put_be(out, a.channelcount as u64, 2);
    put_be(out, a.samplesize as u64, 2);
    put_zeros(out, 4);
    put_be(out, a.samplerate.integer as u64, 2);
    put_be(out, a.samplerate.fraction as u64, 2);
    proof {
        assert(out@ =~= old(out)@ + audio_fields_bytes(*a));
    }
}

/// A `dOps` box of `b`: version 0, the channel count, pre-skip, input
/// sample rate, output gain (two's complement) and channel mapping family 0.
pub open spec fn dops_box_bytes(b: DopsBox) -> Seq<u8> {
    box_bytes(
        BoxType::Normal([0x64u8, 0x4f, 0x70, 0x73]),
        seq![0u8, b.output_channel_count] + be_bytes(b.pre_skip as nat, 2) + be_bytes(b.input_sample_rate as nat, 4)
            + be_bytes(twos(b.output_gain as int, 2), 2) + seq![0u8],
    )
}

impl DopsBox {
    /// Encodes the box.
    pub fn encode(&self) -> (r: Vec<u8>)
        ensures
            r@ == dops_box_bytes(*self),
    {
        let mut payload: Vec<u8> = Vec::new();
        payload.push(0);
        payload.push(self.output_channel_count);
        put_be(&mut payload, self.pre_skip as u64, 2);
        put_be(&mut payload, self.input_sample_rate as u64, 4);
        let gain: u64 = if self.output_gain < 0 {
            (self.output_gain as i32 + 0x1_0000) as u64
        } else {
            self.output_gain as u64
        };
        proof {
            crate::codec::lemma_pow256_values();
            assert(gain == twos(self.output_gain as int, 2));
        }
        put_be(&mut payload, gain, 2);
        payload.push(0);
        proof {
            lemma_be_bytes_len(self.pre_skip as nat, 2);
            lemma_be_bytes_len(self.input_sample_rate as nat, 4);
            lemma_be_bytes_len(gain as nat, 2);
            assert(payload@ =~= seq![0u8, self.output_channel_count] + be_bytes(self.pre_skip as nat, 2) + be_bytes(
                self.input_sample_rate as nat,
                4,
            ) + be_bytes(twos(self.output_gain as int, 2), 2) + seq![0u8]);
        }
        let mut out: Vec<u8> = Vec::new();
        put_box(&mut out, &BoxType::Normal([0x64u8, 0x4f, 0x70, 0x73]), payload.as_slice());
        out
    }
}

/// The `av1C` fields fit their bit widths.
pub open spec fn av1c_fits(b: Av1cBox) -> bool {
    &&& b.seq_profile <= 7
    &&& b.seq_level_idx_0 <= 31
    &&& b.seq_tier_0 <= 1
    &&& b.high_bitdepth <= 1
    &&& b.twelve_bit <= 1
    &&& b.monochrome <= 1
    &&& b.chroma_subsampling_x <= 1
    &&& b.chroma_subsampling_y <= 1
    &&& b.chroma_sample_position <= 3
    &&& (b.initial_presentation_delay_minus_one matches Some(d) ==> d <= 15)
}

/// The fourth `av1C` byte: the presence flag and the delay, or 0.
pub open spec fn av1c_delay_byte(d: Option<u8>) -> u8 {
    match d {
        None => 0u8,
        Some(v) => (16 + v) as u8,
    }
}

/// The `av1C` payload: marker and version 1, profile and level, the
/// tier / bit depth / chroma byte, the presentation delay byte, then the
/// configuration OBUs.
pub open spec fn av1c_payload(b: Av1cBox) -> Seq<u8> {
    seq![
            0x81u8,
            (b.seq_profile * 32 + b.seq_level_idx_0) as u8,
            (b.seq_tier_0 * 128 + b.high_bitdepth * 64 + b.twelve_bit * 32 + b.monochrome * 16
                + b.chroma_subsampling_x * 8 + b.chroma_subsampling_y * 4 + b.chroma_sample_position) as u8,
        av1c_delay_byte(b.initial_presentation_delay_minus_one),
    ] + b.config_obus@
}

/// An `av1C` box of `b`.
pub open spec fn av1c_box_bytes(b: Av1cBox) -> Seq<u8> {
    box_bytes(BoxType::Normal([0x61u8, 0x76, 0x31, 0x43]), av1c_payload(b))
}

impl Av1cBox {
    /// Encodes the box.
    pub fn encode(&self) -> (r: Vec<u8>)
        requires
            av1c_fits(*self),
            self.config_obus@.len() + 64 <= usize::MAX,
        ensures
            r@ == av1c_box_bytes(*self),
    {
        let mut payload: Vec<u8> = Vec::new();
        payload.push(0x81);
        payload.push(self.seq_profile * 32 + self.seq_level_idx_0);
        payload.push(
            self.seq_tier_0 * 128 + self.high_bitdepth * 64 + self.twelve_bit * 32 + self.monochrome * 16
                + self.chroma_subsampling_x * 8 + self.chroma_subsampling_y * 4 + self.chroma_sample_position,
        );
        let delay: u8 = match self.initial_presentation_delay_minus_one {
            None => 0,
            Some(v) => 16 + v,
        };
        payload.push(delay);
        put_bytes(&mut payload, self.config_obus.as_slice());
        proof {
            assert(payload@ =~= seq![
                0x81u8,
                (self.seq_profile * 32 + self.seq_level_idx_0) as u8,
                (self.seq_tier_0 * 128 + self.high_bitdepth * 64 + self.twelve_bit * 32 + self.monochrome * 16
                    + self.chroma_subsampling_x * 8 + self.chroma_subsampling_y * 4
                    + self.chroma_sample_position) as u8,
                av1c_delay_byte(self.initial_presentation_delay_minus_one),
            ] + self.config_obus@);
        }
        let mut out: Vec<u8> = Vec::new();
        put_box(&mut out, &BoxType::Normal([0x61u8, 0x76, 0x31, 0x43]), payload.as_slice());
        out
    }
}

/// The `vpcC` fields fit their bit widths.
pub open spec fn vpcc_fits(b: VpccBox) -> bool {
    &&& b.bit_depth <= 15
    &&& b.chroma_subsampling <= 7
    &&& b.video_full_range_flag <= 1
}

/// The `vpcC` payload (version 1, flags 0): profile, level, the bit depth /
/// chroma subsampling / range byte, the three colour fields, then the
/// initialization data with a 16 bit length.
pub open spec fn vpcc_payload(b: VpccBox) -> Seq<u8> {
    seq![
            1u8,
            0u8,
            0u8,
            0u8,
            b.profile,
            b.level,
            (b.bit_depth * 16 + b.chroma_subsampling * 2 + b.video_full_range_flag) as u8,
            b.colour_primaries,
            b.transfer_characteristics,
            b.matrix_coefficients,
    ] + be_bytes(b.codec_initialization_data@.len(), 2) + b.codec_initialization_data@
}

/// A `vpcC` box of `b`.
pub open spec fn vpcc_box_bytes(b: VpccBox) -> Seq<u8> {
    box_bytes(BoxType::Normal([0x76u8, 0x70, 0x63, 0x43]), vpcc_payload(b))
}

impl VpccBox {
    /// Encodes the box. Fails with [`ErrorKind::InvalidInput`] when the
    /// initialization data is longer than its 16 bit length field.
    pub fn encode(&self) -> (r: Result<Vec<u8>, Error>)
        requires
            vpcc_fits(*self),
            self.codec_initialization_data@.len() + 64 <= usize::MAX,
        ensures
            r is Ok <==> self.codec_initialization_data@.len() <= 0xffff,
            r matches Ok(v) ==> v@ == vpcc_box_bytes(*self),
            r matches Err(e) ==> e.kind == ErrorKind::InvalidInput,
    {
        if self.codec_initialization_data.len() > 0xffff {
            return Err(Error::invalid_input("Too long codec initialization data"));
        }
        let mut payload: Vec<u8> = Vec::new();
        payload.push(1);
        payload.push(0);
        payload.push(0);
        payload.push(0);
        payload.push(self.profile);
        payload.push(self.level);
        payload.push(self.bit_depth * 16 + self.chroma_subsampling * 2 + self.video_full_range_flag);
        payload.push(self.colour_primaries);
        payload.push(self.transfer_characteristics);
        payload.push(self.matrix_coefficients);
        put_be(&mut payload, self.codec_initialization_data.len() as u64, 2);
        put_bytes(&mut payload, self.codec_initialization_data.as_slice());
        proof {
            lemma_be_bytes_len(self.codec_initialization_data@.len(), 2);
            assert(payload@ =~= seq![
                1u8,
                0u8,
                0u8,
                0u8,
                self.profile,
                self.level,
                (self.bit_depth * 16 + self.chroma_subsampling * 2 + self.video_full_range_flag) as u8,
                self.colour_primaries,
                self.transfer_characteristics,
                self.matrix_coefficients,
            ] + be_bytes(self.codec_initialization_data@.len(), 2) + self.codec_initialization_data@);
        }
        let mut out: Vec<u8> = Vec::new();
        put_box(&mut out, &BoxType::Normal([0x76u8, 0x70, 0x63, 0x43]), payload.as_slice());
        Ok(out)
    }
}

/// The contents of a list of byte vectors.
pub open spec fn byte_lists_view(l: Seq<Vec<u8>>) -> Seq<Seq<u8>> {
    l.map_values(|v: Vec<u8>| v@)
}

/// A NAL unit with its 16 bit length in front.
pub open spec fn sized_unit(n: Seq<u8>) -> Seq<u8> {
    be_bytes(n.len(), 2) + n
}

/// NAL units one after another, each with its 16 bit length in front.
pub open spec fn sized_units_bytes(l: Seq<Seq<u8>>) -> Seq<u8> {
    concat_records(l.map_values(|n: Seq<u8>| sized_unit(n)))
}

/// Every unit fits a 16 bit length field.
pub open spec fn units_fit_u16(l: Seq<Seq<u8>>) -> bool {
    forall|i: int| 0 <= i < l.len() ==> (#[trigger] l[i]).len() <= 0xffff
}

/// `concat_records` of a prefix is no longer than of the whole.
pub proof fn lemma_concat_records_take_len(recs: Seq<Seq<u8>>, k: int)
    requires
        0 <= k <= recs.len(),
    ensures
        concat_records(recs.take(k)).len() <= concat_records(recs).len(),
    decreases recs.len(),
{
    if k < recs.len() {
        lemma_concat_records_take_len(recs.drop_last(), k);
        assert(recs.drop_last().take(k) =~= recs.take(k));
    } else {
        assert(recs.take(k) =~= recs);
    }
}

/// Appends the units, each with its 16 bit length. Fails with
/// [`ErrorKind::InvalidInput`] when one is longer than 65535 bytes.
pub fn put_sized_units(out: &mut Vec<u8>, l: &Vec<Vec<u8>>) -> (r: Result<(), Error>)
    ensures
        r is Ok <==> units_fit_u16(byte_lists_view(l@)),
        r is Ok ==> final(out)@ == old(out)@ + sized_units_bytes(byte_lists_view(l@)),
        r matches Err(e) ==> e.kind == ErrorKind::InvalidInput,
{
    let ghost units = byte_lists_view(l@);
    let ghost recs = units.map_values(|n: Seq<u8>| sized_unit(n));
    let mut i: usize = 0;
    proof {
        assert(recs.take(0) =~= Seq::<Seq<u8>>::empty());
    }
    while i < l.len()
        invariant
            units == byte_lists_view(l@),
            recs == units.map_values(|n: Seq<u8>| sized_unit(n)),
            i <= l@.len(),
            forall|k: int| 0 <= k < i ==> (#[trigger] units[k]).len() <= 0xffff,
            out@ == old(out)@ + concat_records(recs.take(i as int)),
        decreases l@.len() - i,
    {
        let n = &l[i];
        if n.len() > 0xffff {
            proof {
                assert(units[i as int] == n@);
            }
            return Err(Error::invalid_input("Too long NAL unit"));
        }
        let ghost before = out@;
        put_be(out, n.len() as u64, 2);
        put_bytes(out, n.as_slice());
        proof {
            assert(units[i as int] == n@);
            lemma_concat_records_push(recs, i as int);
            assert(out@ =~= old(out)@ + concat_records(recs.take(i + 1)));
        }
        i += 1;
    }
    proof {
        assert(recs.take(i as int) =~= recs);
    }
    Ok(())
}

/// `avcC` fields packed into fewer bits fit them.
pub open spec fn avcc_fits(b: AvccBox) -> bool {
    &&& b.length_size_minus_one <= 3
    &&& (b.chroma_format matches Some(c) ==> c <= 3)
    &&& (b.bit_depth_luma_minus8 matches Some(d) ==> d <= 7)
    &&& (b.bit_depth_chroma_minus8 matches Some(d) ==> d <= 7)
}

/// Profiles (Baseline, Main, Extended) whose `avcC` ends after the PPS list.
pub open spec fn avc_base_profile(p: u8) -> bool {
    p == 66 || p == 77 || p == 88
}

/// When `avcC` can be written: at most 31 SPS and 255 PPS, each unit at
/// most 65535 bytes, and outside the base profiles the chroma format, both
/// bit depths and at most 255 SPS extensions of at most 65535 bytes.
pub open spec fn avcc_ok(b: AvccBox) -> bool {
    &&& b.sps_list@.len() <= 31
    &&& units_fit_u16(byte_lists_view(b.sps_list@))
    &&& b.pps_list@.len() <= 255
    &&& units_fit_u16(byte_lists_view(b.pps_list@))
    &&& !avc_base_profile(b.avc_profile_indication) ==> {
        &&& b.chroma_format is Some
        &&& b.bit_depth_luma_minus8 is Some
        &&& b.bit_depth_chroma_minus8 is Some
        &&& b.sps_ext_list@.len() <= 255
        &&& units_fit_u16(byte_lists_view(b.sps_ext_list@))
    }
}

/// An optional `avcC` field, 0 when absent.
pub open spec fn opt_u8(o: Option<u8>) -> u8 {
    match o {
        Some(v) => v,
        None => 0u8,
    }
}

/// The tail of `avcC` written outside the base profiles.
pub open spec fn avcc_ext_bytes(b: AvccBox) -> Seq<u8> {
    if avc_base_profile(b.avc_profile_indication) {
        Seq::empty()
    } else {
        seq![
            (0xfc + opt_u8(b.chroma_format)) as u8,
            (0xf8 + opt_u8(b.bit_depth_luma_minus8)) as u8,
            (0xf8 + opt_u8(b.bit_depth_chroma_minus8)) as u8,
            b.sps_ext_list@.len() as u8,
        ] + sized_units_bytes(byte_lists_view(b.sps_ext_list@))
    }
}

/// The `avcC` payload: version 1, profile, compatibility, level, the
/// length size byte, the SPS count byte and SPS units, the PPS count and
/// PPS units, then [`avcc_ext_bytes`].
pub open spec fn avcc_payload(b: AvccBox) -> Seq<u8> {
    seq![
        1u8,
        b.avc_profile_indication,
        b.profile_compatibility,
        b.avc_level_indication,
        (0xfc + b.length_size_minus_one) as u8,
        (0xe0 + b.sps_list@.len()) as u8,
    ] + sized_units_bytes(byte_lists_view(b.sps_list@)) + seq![b.pps_list@.len() as u8] + sized_units_bytes(
        byte_lists_view(b.pps_list@),
    ) + avcc_ext_bytes(b)
}

/// An `avcC` box of `b`.
pub open spec fn avcc_box_bytes(b: AvccBox) -> Seq<u8> {
    box_bytes(BoxType::Normal([0x61u8, 0x76, 0x63, 0x43]), avcc_payload(b))
}

impl AvccBox {
    /// Encodes the box. Fails with [`ErrorKind::InvalidInput`] unless
    /// [`avcc_ok`] holds.
    pub fn encode(&self) -> (r: Result<Vec<u8>, Error>)
        requires
            avcc_fits(*self),
            avcc_box_bytes(*self).len() + 64 <= usize::MAX,
        ensures
            r is Ok <==> avcc_ok(*self),
            r matches Ok(v) ==> v@ == avcc_box_bytes(*self),
            r matches Err(e) ==> e.kind == ErrorKind::InvalidInput,
    {
        if self.sps_list.len() > 31 {
            return Err(Error::invalid_input("Too many SPSs"));
        }
        if self.pps_list.len() > 255 {
            return Err(Error::invalid_input("Too many PPSs"));
        }
        let mut payload: Vec<u8> = Vec::new();
        payload.push(1);
        payload.push(self.avc_profile_indication);
        payload.push(self.profile_compatibility);
        payload.push(self.avc_level_indication);
        payload.push(0xfc + self.length_size_minus_one);
        payload.push(0xe0 + self.sps_list.len() as u8);
        put_sized_units(&mut payload, &self.sps_list)?;
        payload.push(self.pps_list.len() as u8);
        put_sized_units(&mut payload, &self.pps_list)?;
        let ghost p1 = payload@;
        let p = self.avc_profile_indication;
        if !(p == 66 || p == 77 || p == 88) {
            let chroma_format = match self.chroma_format {
                Some(v) => v,
                None => {
                    return Err(Error::invalid_input("Missing 'chroma_format' field"));
                },
            };
            let bit_depth_luma_minus8 = match self.bit_depth_luma_minus8 {
                Some(v) => v,
                None => {
                    return Err(Error::invalid_input("Missing 'bit_depth_luma_minus8' field"));
                },
            };
            let bit_depth_chroma_minus8 = match self.bit_depth_chroma_minus8 {
                Some(v) => v,
                None => {
                    return Err(Error::invalid_input("Missing 'bit_depth_chroma_minus8' field"));
                },
            };
            if self.sps_ext_list.len() > 255 {
                return Err(Error::invalid_input("Too many SPS extensions"));
            }
            payload.push(0xfc + chroma_format);
            payload.push(0xf8 + bit_depth_luma_minus8);
            payload.push(0xf8 + bit_depth_chroma_minus8);
            payload.push(self.sps_ext_list.len() as u8);
            put_sized_units(&mut payload, &self.sps_ext_list)?;
        }
        proof {
            assert(payload@ == p1 + avcc_ext_bytes(*self));
            assert(payload@ =~= avcc_payload(*self));
            lemma_box_bytes_len(BoxType::Normal([0x61u8, 0x76, 0x63, 0x43]), payload@);
        }
        let mut out: Vec<u8> = Vec::new();
        put_box(&mut out, &BoxType::Normal([0x61u8, 0x76, 0x63, 0x43]), payload.as_slice());
        Ok(out)
    }
}

/// `hvcC` fields packed into fewer bits fit them.
pub open spec fn hvcc_fits(b: HvccBox) -> bool {
    &&& b.general_profile_space <= 3
    &&& b.general_tier_flag <= 1
    &&& b.general_profile_idc <= 31
    &&& b.general_constraint_indicator_flags < 0x1_0000_0000_0000
    &&& b.min_spatial_segmentation_idc <= 0xfff
    &&& b.parallelism_type <= 3
    &&& b.chroma_format_idc <= 3
    &&& b.bit_depth_luma_minus8 <= 7
    &&& b.bit_depth_chroma_minus8 <= 7
    &&& b.constant_frame_rate <= 3
    &&& b.num_temporal_layers <= 7
    &&& b.temporal_id_nested <= 1
    &&& b.length_size_minus_one <= 3
    &&& forall|i: int|
        0 <= i < b.nalu_arrays@.len() ==> (#[trigger] b.nalu_arrays@[i]).array_completeness <= 1
            && b.nalu_arrays@[i].nal_unit_type <= 63
}

/// An `hvcC` NAL unit array can be written: at most 65535 units of at most
/// 65535 bytes.
pub open spec fn hvcc_array_ok(a: HvccNalUintArray) -> bool {
    &&& a.nalus@.len() <= 0xffff
    &&& units_fit_u16(byte_lists_view(a.nalus@))
}

/// When `hvcC` can be written: at most 255 arrays, each [`hvcc_array_ok`].
pub open spec fn hvcc_ok(b: HvccBox) -> bool {
    &&& b.nalu_arrays@.len() <= 255
    &&& forall|i: int| 0 <= i < b.nalu_arrays@.len() ==> hvcc_array_ok(#[trigger] b.nalu_arrays@[i])
}

/// One NAL unit array: the completeness / type byte, the unit count and
/// the units with their lengths.
pub open spec fn hvcc_array_bytes(a: HvccNalUintArray) -> Seq<u8> {
    seq![(a.array_completeness * 128 + a.nal_unit_type) as u8] + be_bytes(a.nalus@.len(), 2) + sized_units_bytes(
        byte_lists_view(a.nalus@),
    )
}

/// The `hvcC` payload (HEVCDecoderConfigurationRecord) with version 1 and
/// the reserved bits set.
pub open spec fn hvcc_payload(b: HvccBox) -> Seq<u8> {
    seq![1u8, (b.general_profile_space * 64 + b.general_tier_flag * 32 + b.general_profile_idc) as u8] + be_bytes(
        b.general_profile_compatibility_flags as nat,
        4,
    ) + be_bytes(b.general_constraint_indicator_flags as nat, 6) + seq![b.general_level_idc] + be_bytes(
        (0xf000 + b.min_spatial_segmentation_idc) as nat,
        2,
    ) + seq![
        (0xfc + b.parallelism_type) as u8,
        (0xfc + b.chroma_format_idc) as u8,
        (0xf8 + b.bit_depth_luma_minus8) as u8,
        (0xf8 + b.bit_depth_chroma_minus8) as u8,
    ] + be_bytes(b.avg_frame_rate as nat, 2) + seq![
        (b.constant_frame_rate * 64 + b.num_temporal_layers * 8 + b.temporal_id_nested * 4
            + b.length_size_minus_one) as u8,
        b.nalu_arrays@.len() as u8,
    ] + concat_records(b.nalu_arrays@.map_values(|a: HvccNalUintArray| hvcc_array_bytes(a)))
}

/// An `hvcC` box of `b`.
pub open spec fn hvcc_box_bytes(b: HvccBox) -> Seq<u8> {
    box_bytes(BoxType::Normal([0x68u8, 0x76, 0x63, 0x43]), hvcc_payload(b))
}

/// Appends one NAL unit array.
fn put_hvcc_array(out: &mut Vec<u8>, a: &HvccNalUintArray) -> (r: Result<(), Error>)
    requires
        a.array_completeness <= 1,
        a.nal_unit_type <= 63,
    ensures
        r is Ok <==> hvcc_array_ok(*a),
        r is Ok ==> final(out)@ == old(out)@ + hvcc_array_bytes(*a),
        r matches Err(e) ==> e.kind == ErrorKind::InvalidInput,
{
    if a.nalus.len() > 0xffff {
        return Err(Error::invalid_input("Too many NAL units"));
    }
    out.push(a.array_completeness * 128 + a.nal_unit_type);
    put_be(out, a.nalus.len() as u64, 2);
    put_sized_units(out, &a.nalus)?;
    proof {
        assert(out@ =~= old(out)@ + hvcc_array_bytes(*a));
    }
    Ok(())
}

impl HvccBox {
    /// Encodes the box. Fails with [`ErrorKind::InvalidInput`] unless
    /// [`hvcc_ok`] holds.
    pub fn encode(&self) -> (r: Result<Vec<u8>, Error>)
        requires
            hvcc_fits(*self),
            hvcc_box_bytes(*self).len() + 64 <= usize::MAX,
        ensures
            r is Ok <==> hvcc_ok(*self),
            r matches Ok(v) ==> v@ == hvcc_box_bytes(*self),
            r matches Err(e) ==> e.kind == ErrorKind::InvalidInput,
    {
        if self.nalu_arrays.len() > 255 {
            return Err(Error::invalid_input("Too many NAL unit arrays"));
        }
        let mut payload: Vec<u8> = Vec::new();
        payload.push(1);
        payload.push(self.general_profile_space * 64 + self.general_tier_flag * 32 + self.general_profile_idc);
        put_be(&mut payload, self.general_profile_compatibility_flags as u64, 4);
        put_be(&mut payload, self.general_constraint_indicator_flags, 6);
        payload.push(self.general_level_idc);
        put_be(&mut payload, (0xf000 + self.min_spatial_segmentation_idc) as u64, 2);
        payload.push(0xfc + self.parallelism_type);
        payload.push(0xfc + self.chroma_format_idc);
        payload.push(0xf8 + self.bit_depth_luma_minus8);
        payload.push(0xf8 + self.bit_depth_chroma_minus8);
        put_be(&mut payload, self.avg_frame_rate as u64, 2);
        payload.push(
            self.constant_frame_rate * 64 + self.num_temporal_layers * 8 + self.temporal_id_nested * 4
                + self.length_size_minus_one,
        );
        payload.push(self.nalu_arrays.len() as u8);
        let ghost head = payload@;
        let ghost recs = self.nalu_arrays@.map_values(|a: HvccNalUintArray| hvcc_array_bytes(a));
        let mut i: usize = 0;
        proof {
            assert(recs.take(0) =~= Seq::<Seq<u8>>::empty());
        }
        while i < self.nalu_arrays.len()
            invariant
                recs == self.nalu_arrays@.map_values(|a: HvccNalUintArray| hvcc_array_bytes(a)),
                hvcc_fits(*self),
                i <= self.nalu_arrays@.len(),
                forall|k: int| 0 <= k < i ==> hvcc_array_ok(#[trigger] self.nalu_arrays@[k]),
                payload@ == head + concat_records(recs.take(i as int)),
            decreases self.nalu_arrays@.len() - i,
        {
            let a = &self.nalu_arrays[i];
            proof {
                assert(self.nalu_arrays@[i as int].array_completeness <= 1);
            }
            match put_hvcc_array(&mut payload, a) {
                Ok(()) => {},
                Err(e) => {
                    return Err(e);
                },
            }
            proof {
                lemma_concat_records_push(recs, i as int);
                assert(payload@ =~= head + concat_records(recs.take(i + 1)));
            }
            i += 1;
        }
        proof {
            assert(recs.take(i as int) =~= recs);
            assert(payload@ =~= hvcc_payload(*self));
            lemma_box_bytes_len(BoxType::Normal([0x68u8, 0x76, 0x63, 0x43]), payload@);
        }
        let mut out: Vec<u8> = Vec::new();
        put_box(&mut out, &BoxType::Normal([0x68u8, 0x76, 0x63, 0x43]), payload.as_slice());
        Ok(out)
    }
}

/// The packed fields of the entry's configuration box fit their bits.
pub open spec fn sample_entry_fits(e: SampleEntry) -> bool {
    match e {
        SampleEntry::Avc1(b) => avcc_fits(b.avcc_box),
        SampleEntry::Hev1(b) => hvcc_fits(b.hvcc_box),
        SampleEntry::Hvc1(b) => hvcc_fits(b.hvcc_box),
        SampleEntry::Vp08(b) => vpcc_fits(b.vpcc_box),
        SampleEntry::Vp09(b) => vpcc_fits(b.vpcc_box),
        SampleEntry::Av01(b) => av1c_fits(b.av1c_box),
        SampleEntry::Opus(_) => true,
        SampleEntry::Unknown(_) => true,
    }
}

/// When the entry can be written: its configuration box can.
pub open spec fn sample_entry_ok(e: SampleEntry) -> bool {
    match e {
        SampleEntry::Avc1(b) => avcc_ok(b.avcc_box),
        SampleEntry::Hev1(b) => hvcc_ok(b.hvcc_box),
        SampleEntry::Hvc1(b) => hvcc_ok(b.hvcc_box),
        SampleEntry::Vp08(b) => b.vpcc_box.codec_initialization_data@.len() <= 0xffff,
        SampleEntry::Vp09(b) => b.vpcc_box.codec_initialization_data@.len() <= 0xffff,
        SampleEntry::Av01(_) => true,
        SampleEntry::Opus(_) => true,
        SampleEntry::Unknown(_) => true,
    }
}

/// A visual sample entry box: the visual fields, the configuration box,
/// then the other children.
pub open spec fn visual_entry_bytes(
    code: [u8; 4],
    v: VisualSampleEntryFields,
    config: Seq<u8>,
    others: Seq<UnknownBox>,
) -> Seq<u8> {
    box_bytes(BoxType::Normal(code), visual_fields_bytes(v) + config + unknown_boxes_bytes(others))
}

/// Writes a visual sample entry around an encoded configuration box.
fn visual_entry(code: [u8; 4], v: &VisualSampleEntryFields, config: &[u8], others: &Vec<UnknownBox>) -> (r: Vec<u8>)
    requires
        visual_entry_bytes(code, *v, config@, others@).len() + 64 <= usize::MAX,
    ensures
        r@ == visual_entry_bytes(code, *v, config@, others@),
{
    let mut payload: Vec<u8> = Vec::new();
    put_visual_fields(&mut payload, v);
    put_bytes(&mut payload, config);
    encode_unknown_boxes(&mut payload, others);
    proof {
        assert(payload@ =~= visual_fields_bytes(*v) + config@ + unknown_boxes_bytes(others@));
        lemma_box_bytes_len(BoxType::Normal(code), payload@);
    }
    let mut out: Vec<u8> = Vec::new();
    put_box(&mut out, &BoxType::Normal(code), payload.as_slice());
    out
}

/// An `avc1` sample entry box.
pub open spec fn avc1_box_bytes(b: Avc1Box) -> Seq<u8> {
    visual_entry_bytes([0x61u8, 0x76, 0x63, 0x31], b.visual, avcc_box_bytes(b.avcc_box), b.unknown_boxes@)
}

/// An `hev1` sample entry box.
pub open spec fn hev1_box_bytes(b: Hev1Box) -> Seq<u8> {
    visual_entry_bytes([0x68u8, 0x65, 0x76, 0x31], b.visual, hvcc_box_bytes(b.hvcc_box), b.unknown_boxes@)
}

/// An `hvc1` sample entry box.
pub open spec fn hvc1_box_bytes(b: Hvc1Box) -> Seq<u8> {
    visual_entry_bytes([0x68u8, 0x76, 0x63, 0x31], b.visual, hvcc_box_bytes(b.hvcc_box), b.unknown_boxes@)
}

/// An `vp08` sample entry box.
pub open spec fn vp08_box_bytes(b: Vp08Box) -> Seq<u8> {
    visual_entry_bytes([0x76u8, 0x70, 0x30, 0x38], b.visual, vpcc_box_bytes(b.vpcc_box), b.unknown_boxes@)
}

/// An `vp09` sample entry box.
pub open spec fn vp09_box_bytes(b: Vp09Box) -> Seq<u8> {
    visual_entry_bytes([0x76u8, 0x70, 0x30, 0x39], b.visual, vpcc_box_bytes(b.vpcc_box), b.unknown_boxes@)
}

/// An `av01` sample entry box.
pub open spec fn av01_box_bytes(b: Av01Box) -> Seq<u8> {
    visual_entry_bytes([0x61u8, 0x76, 0x30, 0x31], b.visual, av1c_box_bytes(b.av1c_box), b.unknown_boxes@)
}

/// An `Opus` sample entry box: the audio fields, `dOps`, then the other children.
pub open spec fn opus_box_bytes(b: OpusBox) -> Seq<u8> {
    box_bytes(
        BoxType::Normal([0x4fu8, 0x70, 0x75, 0x73]),
        audio_fields_bytes(b.audio) + dops_box_bytes(b.dops_box) + unknown_boxes_bytes(b.unknown_boxes@),
    )
}

impl Avc1Box {
    /// Encodes the box. Fails with [`ErrorKind::InvalidInput`] unless
    /// [`avcc_ok`] holds of its `avcC`.
    pub fn encode(&self) -> (r: Result<Vec<u8>, Error>)
        requires
            avcc_fits(self.avcc_box),
            avc1_box_bytes(*self).len() + 64 <= usize::MAX,
        ensures
            r is Ok <==> avcc_ok(self.avcc_box),
            r matches Ok(v) ==> v@ == avc1_box_bytes(*self),
            r matches Err(e) ==> e.kind == ErrorKind::InvalidInput,
    {
        let code = [0x61u8, 0x76, 0x63, 0x31];
        proof {
            lemma_box_bytes_len(
                BoxType::Normal(code),
                visual_fields_bytes(self.visual) + avcc_box_bytes(self.avcc_box) + unknown_boxes_bytes(
                    self.unknown_boxes@,
                ),
            );
        }
        let config = self.avcc_box.encode()?;
        Ok(visual_entry(code, &self.visual, config.as_slice(), &self.unknown_boxes))
    }
}

impl Hev1Box {
    /// Encodes the box. Fails with [`ErrorKind::InvalidInput`] unless
    /// [`hvcc_ok`] holds of its `hvcC`.
    pub fn encode(&self) -> (r: Result<Vec<u8>, Error>)
        requires
            hvcc_fits(self.hvcc_box),
            hev1_box_bytes(*self).len() + 64 <= usize::MAX,
        ensures
            r is Ok <==> hvcc_ok(self.hvcc_box),
            r matches Ok(v) ==> v@ == hev1_box_bytes(*self),
            r matches Err(e) ==> e.kind == ErrorKind::InvalidInput,
    {
        let code = [0x68u8, 0x65, 0x76, 0x31];
        proof {
            lemma_box_bytes_len(
                BoxType::Normal(code),
                visual_fields_bytes(self.visual) + hvcc_box_bytes(self.hvcc_box) + unknown_boxes_bytes(
                    self.unknown_boxes@,
                ),
            );
        }
        let config = self.hvcc_box.encode()?;
        Ok(visual_entry(code, &self.visual, config.as_slice(), &self.unknown_boxes))
    }
}

impl Hvc1Box {
    /// Encodes the box. Fails with [`ErrorKind::InvalidInput`] unless
    /// [`hvcc_ok`] holds of its `hvcC`.
    pub fn encode(&self) -> (r: Result<Vec<u8>, Error>)
        requires
            hvcc_fits(self.hvcc_box),
            hvc1_box_bytes(*self).len() + 64 <= usize::MAX,
        ensures
            r is Ok <==> hvcc_ok(self.hvcc_box),
            r matches Ok(v) ==> v@ == hvc1_box_bytes(*self),
            r matches Err(e) ==> e.kind == ErrorKind::InvalidInput,
    {
        let code = [0x68u8, 0x76, 0x63, 0x31];
        proof {
            lemma_box_bytes_len(
                BoxType::Normal(code),
                visual_fields_bytes(self.visual) + hvcc_box_bytes(self.hvcc_box) + unknown_boxes_bytes(
                    self.unknown_boxes@,
                ),
            );
        }
        let config = self.hvcc_box.encode()?;
        Ok(visual_entry(code, &self.visual, config.as_slice(), &self.unknown_boxes))
    }
}

impl Vp08Box {
    /// Encodes the box. Fails with [`ErrorKind::InvalidInput`] when the
    /// `vpcC` initialization data is longer than 65535 bytes.
    pub fn encode(&self) -> (r: Result<Vec<u8>, Error>)
        requires
            vpcc_fits(self.vpcc_box),
            vp08_box_bytes(*self).len() + 64 <= usize::MAX,
        ensures
            r is Ok <==> self.vpcc_box.codec_initialization_data@.len() <= 0xffff,
            r matches Ok(v) ==> v@ == vp08_box_bytes(*self),
            r matches Err(e) ==> e.kind == ErrorKind::InvalidInput,
    {
        let code = [0x76u8, 0x70, 0x30, 0x38];
        proof {
            lemma_box_bytes_len(
                BoxType::Normal(code),
                visual_fields_bytes(self.visual) + vpcc_box_bytes(self.vpcc_box) + unknown_boxes_bytes(
                    self.unknown_boxes@,
                ),
            );
            lemma_box_bytes_len(BoxType::Normal([0x76u8, 0x70, 0x63, 0x43]), vpcc_payload(self.vpcc_box));
        }
        let config = self.vpcc_box.encode()?;
        Ok(visual_entry(code, &self.visual, config.as_slice(), &self.unknown_boxes))
    }
}

impl Vp09Box {
    /// Encodes the box. Fails with [`ErrorKind::InvalidInput`] when the
    /// `vpcC` initialization data is longer than 65535 bytes.
    pub fn encode(&self) -> (r: Result<Vec<u8>, Error>)
        requires
            vpcc_fits(self.vpcc_box),
            vp09_box_bytes(*self).len() + 64 <= usize::MAX,
        ensures
            r is Ok <==> self.vpcc_box.codec_initialization_data@.len() <= 0xffff,
            r matches Ok(v) ==> v@ == vp09_box_bytes(*self),
            r matches Err(e) ==> e.kind == ErrorKind::InvalidInput,
    {
        let code = [0x76u8, 0x70, 0x30, 0x39];
        proof {
            lemma_box_bytes_len(
                BoxType::Normal(code),
                visual_fields_bytes(self.visual) + vpcc_box_bytes(self.vpcc_box) + unknown_boxes_bytes(
                    self.unknown_boxes@,
                ),
            );
            lemma_box_bytes_len(BoxType::Normal([0x76u8, 0x70, 0x63, 0x43]), vpcc_payload(self.vpcc_box));
        }
        let config = self.vpcc_box.encode()?;
        Ok(visual_entry(code, &self.visual, config.as_slice(), &self.unknown_boxes))
    }
}

impl Av01Box {
    /// Encodes the box.
    pub fn encode(&self) -> (r: Vec<u8>)
        requires
            av1c_fits(self.av1c_box),
            av01_box_bytes(*self).len() + 64 <= usize::MAX,
        ensures
            r@ == av01_box_bytes(*self),
    {
        let code = [0x61u8, 0x76, 0x30, 0x31];
        proof {
            lemma_box_bytes_len(
                BoxType::Normal(code),
                visual_fields_bytes(self.visual) + av1c_box_bytes(self.av1c_box) + unknown_boxes_bytes(
                    self.unknown_boxes@,
                ),
            );
            lemma_box_bytes_len(BoxType::Normal([0x61u8, 0x76, 0x31, 0x43]), av1c_payload(self.av1c_box));
        }
        let config = self.av1c_box.encode();
        visual_entry(code, &self.visual, config.as_slice(), &self.unknown_boxes)
    }
}

impl OpusBox {
    /// Encodes the box.
    pub fn encode(&self) -> (r: Vec<u8>)
        requires
            opus_box_bytes(*self).len() + 64 <= usize::MAX,
        ensures
            r@ == opus_box_bytes(*self),
    {
        let code = [0x4fu8, 0x70, 0x75, 0x73];
        let mut payload: Vec<u8> = Vec::new();
        put_audio_fields(&mut payload, &self.audio);
        let config = self.dops_box.encode();
        put_bytes(&mut payload, config.as_slice());
        encode_unknown_boxes(&mut payload, &self.unknown_boxes);
        proof {
            assert(payload@ =~= audio_fields_bytes(self.audio) + dops_box_bytes(self.dops_box) + unknown_boxes_bytes(
                self.unknown_boxes@,
            ));
            lemma_box_bytes_len(BoxType::Normal(code), payload@);
        }
        let mut out: Vec<u8> = Vec::new();
        put_box(&mut out, &BoxType::Normal(code), payload.as_slice());
        out
    }
}

/// The bytes of a sample entry; an unknown entry is written back as read.
pub open spec fn sample_entry_bytes(e: SampleEntry) -> Seq<u8> {
    match e {
        SampleEntry::Avc1(b) => avc1_box_bytes(b),
        SampleEntry::Hev1(b) => hev1_box_bytes(b),
        SampleEntry::Hvc1(b) => hvc1_box_bytes(b),
        SampleEntry::Vp08(b) => vp08_box_bytes(b),
        SampleEntry::Vp09(b) => vp09_box_bytes(b),
        SampleEntry::Av01(b) => av01_box_bytes(b),
        SampleEntry::Opus(b) => opus_box_bytes(b),
        SampleEntry::Unknown(u) => unknown_box_bytes(u),
    }
}

impl SampleEntry {
    /// Encodes the entry. Fails with [`ErrorKind::InvalidInput`] unless
    /// [`sample_entry_ok`] holds.
    pub fn encode(&self) -> (r: Result<Vec<u8>, Error>)
        requires
            sample_entry_fits(*self),
            sample_entry_bytes(*self).len() + 64 <= usize::MAX,
        ensures
            r is Ok <==> sample_entry_ok(*self),
            r matches Ok(v) ==> v@ == sample_entry_bytes(*self),
            r matches Err(e) ==> e.kind == ErrorKind::InvalidInput,
    {
        match self {
            SampleEntry::Avc1(b) => b.encode(),
            SampleEntry::Hev1(b) => b.encode(),
            SampleEntry::Hvc1(b) => b.encode(),
            SampleEntry::Vp08(b) => b.encode(),
            SampleEntry::Vp09(b) => b.encode(),
            SampleEntry::Av01(b) => Ok(b.encode()),
            SampleEntry::Opus(b) => Ok(b.encode()),
            SampleEntry::Unknown(u) => Ok(u.encode()),
        }
    }
}

/// Every `avc1` entry that `build_avc1_box` builds from parameter sets it
/// accepts can be encoded.
pub proof fn lemma_built_avc1_encodes(sps: Seq<Seq<u8>>, pps: Seq<Seq<u8>>, ls: LengthSize, b: Avc1Box)
    requires
        avc1_inputs_ok(sps, pps),
        avc1_box_of(sps, pps, h264_parse_sps_spec(sps[0]).unwrap(), ls, b),
    ensures
        sample_entry_fits(SampleEntry::Avc1(b)),
        sample_entry_ok(SampleEntry::Avc1(b)),
{
    let c = b.avcc_box;
    lemma_h264_sps_bounds(sps[0]);
    assert(byte_lists_view(c.sps_list@) =~= byte_lists(c.sps_list@));
    assert(byte_lists_view(c.pps_list@) =~= byte_lists(c.pps_list@));
    assert(byte_lists_view(c.sps_ext_list@) =~= Seq::<Seq<u8>>::empty());
    assert(units_fit_u16(byte_lists_view(c.sps_list@)));
    assert(units_fit_u16(byte_lists_view(c.pps_list@)));
}

/// Every `hvcC` that `build_hev1_box` (`array_completeness` 0) and
/// `build_hvc1_box` (1) build from parameter sets they accept can be encoded.
pub proof fn lemma_built_hvcc_encodes(
    vps: Seq<Seq<u8>>,
    sps: Seq<Seq<u8>>,
    pps: Seq<Seq<u8>>,
    ls: LengthSize,
    completeness: u8,
    c: HvccBox,
)
    requires
        hvcc_inputs_ok(vps, sps, pps),
        completeness <= 1,
        hvcc_of(vps, sps, pps, h265_parse_sps_spec(sps[0]).unwrap(), ls, completeness, c),
    ensures
        hvcc_fits(c),
        hvcc_ok(c),
{
    lemma_h265_sps_bounds(sps[0]);
    let arrays = c.nalu_arrays@;
    assert forall|i: int| 0 <= i < arrays.len() implies hvcc_array_ok(#[trigger] arrays[i]) by {
        let a = arrays[i];
        assert(byte_lists_view(a.nalus@) =~= byte_lists(a.nalus@));
    }
    assert(arrays[0].array_completeness <= 1 && arrays[0].nal_unit_type <= 63);
    assert(arrays[1].array_completeness <= 1 && arrays[1].nal_unit_type <= 63);
    assert(arrays[2].array_completeness <= 1 && arrays[2].nal_unit_type <= 63);
}

} // verus!
