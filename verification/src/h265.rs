//! H.265 bitstream helpers: Annex B / length-prefixed NAL unit parsing, SPS
//! parsing, and `hev1` / `hvc1` / `hvcC` construction.
//!
//! NAL unit bytes handed out here include the two byte NAL header and exclude
//! start codes and length prefixes; they are EBSP (emulation prevention bytes
//! kept). Only [`parse_sps`] converts to RBSP.
use vstd::prelude::*;

use crate::bits::{bit_at, bit_len, bit_spec, bits_value, ue_spec, BitReader};
use crate::boxes::{
    copy_byte_lists, is_default_visual, make_visual, Hev1Box, Hvc1Box, HvccBox,
    HvccNalUintArray, VisualSampleEntryFields, DEFAULT_DATA_REFERENCE_INDEX,
};
use crate::error::{Error, ErrorKind};
use crate::h264::byte_lists;
use crate::nal::{
    scan_annexb_reason,
    annexb_to_length_prefixed_spec, length_prefixed_to_annexb_spec, rbsp_of,
    remove_emulation_prevention_bytes, scan_annexb_nals, scan_annexb_spec,
    scan_length_prefixed_nals, scan_length_prefixed_spec, slice_views,
};

pub use crate::nal::LengthSize;

verus! {

/// `nal_unit_type` (ITU-T H.265 Table 7-1); the parameter set, delimiter and
/// SEI types are named, all others pass through as [`H265NalUnitType::Other`].
#[derive(Debug, Clone, Copy, PartialEq, Eq, Hash, Structural)]
pub enum H265NalUnitType {
    /// Video parameter set (32)
    Vps,
    /// Sequence parameter set (33)
    Sps,
    /// Picture parameter set (34)
    Pps,
    /// Access unit delimiter (35)
    Aud,
    /// Prefix SEI (39)
    PrefixSei,
    /// Suffix SEI (40)
    SuffixSei,
    /// Any other value
    Other(u8),
}

/// The [`H265NalUnitType`] of the six bit value `v`.
pub open spec fn h265_nal_type_of(v: u8) -> H265NalUnitType {
    if v == 32 {
        H265NalUnitType::Vps
    } else if v == 33 {
        H265NalUnitType::Sps
    } else if v == 34 {
        H265NalUnitType::Pps
    } else if v == 35 {
        H265NalUnitType::Aud
    } else if v == 39 {
        H265NalUnitType::PrefixSei
    } else if v == 40 {
        H265NalUnitType::SuffixSei
    } else {
        H265NalUnitType::Other(v)
    }
}

impl H265NalUnitType {
    /// Maps the six bit `nal_unit_type` to the type.
    fn from_header_value(value: u8) -> (r: Self)
        ensures
            r == h265_nal_type_of(value),
    {
        match value {
            32 => Self::Vps,
            33 => Self::Sps,
            34 => Self::Pps,
            35 => Self::Aud,
            39 => Self::PrefixSei,
            40 => Self::SuffixSei,
            other => Self::Other(other),
        }
    }
}

/// Largest number of NAL units in one `hvcC` array (16 bit count).
const MAX_NALUS_PER_ARRAY: usize = 65535;

/// `nal_unit_type` of a VPS.
const NAL_UNIT_TYPE_VPS: u8 = 32;

/// `nal_unit_type` of an SPS.
const NAL_UNIT_TYPE_SPS: u8 = 33;

/// `nal_unit_type` of a PPS.
const NAL_UNIT_TYPE_PPS: u8 = 34;

/// One H.265 NAL unit, borrowing its bytes from the parsed input.
#[derive(Debug, Clone, Copy, PartialEq, Eq, Hash)]
pub struct H265NalUnit<'a> {
    /// `nal_unit_type`
    pub nal_unit_type: H265NalUnitType,
    /// `nuh_layer_id` (0..=62)
    pub nuh_layer_id: u8,
    /// `nuh_temporal_id_plus1` (1..=7)
    pub nuh_temporal_id_plus1: u8,
    /// The NAL unit: two header bytes and EBSP, no start code or length prefix.
    pub data: &'a [u8],
}

/// `nal_unit_type` of the header of `b`.
pub open spec fn h265_type_value(b: Seq<u8>) -> u8 {
    ((b[0] / 2) % 64) as u8
}

/// `nuh_layer_id` of the header of `b`.
pub open spec fn h265_layer_id(b: Seq<u8>) -> u8 {
    ((b[0] % 2) * 32 + b[1] / 8) as u8
}

/// `nuh_temporal_id_plus1` of the header of `b`.
pub open spec fn h265_temporal_id_plus1(b: Seq<u8>) -> u8 {
    (b[1] % 8) as u8
}

/// A NAL unit passes the header check: two bytes, `forbidden_zero_bit`
/// 0, `nuh_temporal_id_plus1` not 0, `nuh_layer_id` not 63.
pub open spec fn h265_header_ok(b: Seq<u8>) -> bool {
    &&& b.len() >= 2
    &&& b[0] < 0x80
    &&& h265_temporal_id_plus1(b) != 0
    &&& h265_layer_id(b) != 63
}

/// The type named by the header of `b`.
pub open spec fn h265_type_of(b: Seq<u8>) -> H265NalUnitType {
    h265_nal_type_of(h265_type_value(b))
}

/// Every unit passes the header check.
pub open spec fn h265_headers_ok(bodies: Seq<Seq<u8>>) -> bool {
    forall|i: int| 0 <= i < bodies.len() ==> h265_header_ok(#[trigger] bodies[i])
}

/// `units` are `bodies` with their header fields.
pub open spec fn h265_units_of(units: Seq<H265NalUnit>, bodies: Seq<Seq<u8>>) -> bool {
    &&& units.len() == bodies.len()
    &&& forall|i: int|
        0 <= i < units.len() ==> {
            let u = #[trigger] units[i];
            &&& u.data@ == bodies[i]
            &&& u.nal_unit_type == h265_type_of(bodies[i])
            &&& u.nuh_layer_id == h265_layer_id(bodies[i])
            &&& u.nuh_temporal_id_plus1 == h265_temporal_id_plus1(bodies[i])
        }
}

/// `nal_unit_type` of a header of at least two bytes.
fn nal_unit_type(data: &[u8]) -> (r: u8)
    requires
        data@.len() >= 2,
    ensures
        r == h265_type_value(data@),
{
    let b = data[0];
    proof {
        assert((b >> 1u8) & 0x3f == (b / 2) % 64) by (bit_vector);
    }
    (b >> 1) & 0b0011_1111
}

/// `nuh_layer_id` of a header of at least two bytes.
fn nuh_layer_id(data: &[u8]) -> (r: u8)
    requires
        data@.len() >= 2,
    ensures
        r == h265_layer_id(data@),
{
    let a = data[0];
    let b = data[1];
    proof {
        assert(((a & 0x01) << 5u8) | (b >> 3u8) == (a % 2) * 32 + b / 8) by (bit_vector);
    }
    ((a & 0x01) << 5) | (b >> 3)
}

/// `nuh_temporal_id_plus1` of a header of at least two bytes.
fn nuh_temporal_id_plus1(data: &[u8]) -> (r: u8)
    requires
        data@.len() >= 2,
    ensures
        r == h265_temporal_id_plus1(data@),
{
    let b = data[1];
    proof {
        assert(b & 0x07 == b % 8) by (bit_vector);
    }
    data[1] & 0b0000_0111
}

/// The reason the header check gives for rejecting `b`.
pub open spec fn h265_header_reason(b: Seq<u8>) -> &'static str {
    if b.len() < 2 {
        "NAL unit is shorter than 2 bytes"
    } else if b[0] >= 0x80 {
        "forbidden_zero_bit must be 0"
    } else if h265_temporal_id_plus1(b) == 0 {
        "nuh_temporal_id_plus1 must not be 0"
    } else {
        "nuh_layer_id must be 0..=62"
    }
}

/// The reason the header checks of `bodies`, made in order, give: that of
/// the first unit that fails its check.
pub open spec fn h265_headers_reason(bodies: Seq<Seq<u8>>) -> &'static str
    decreases bodies.len(),
{
    if bodies.len() == 0 {
        ""
    } else if !h265_header_ok(bodies[0]) {
        h265_header_reason(bodies[0])
    } else {
        h265_headers_reason(bodies.drop_first())
    }
}

/// The reason [`parse_annexb_nal_units`] gives for rejecting `s`: that of
/// the Annex B scan, or else that of the header checks of its units.
pub open spec fn h265_annexb_reason(s: Seq<u8>) -> &'static str {
    match scan_annexb_spec(s) {
        None => scan_annexb_reason(s),
        Some(b) => h265_headers_reason(b),
    }
}

/// Checks the NAL header and returns its type.
fn validate_h265_nal_header(data: &[u8]) -> (r: Result<H265NalUnitType, Error>)
    ensures
        r is Ok <==> h265_header_ok(data@),
        r matches Ok(t) ==> t == h265_type_of(data@),
        r matches Err(e) ==> e.kind == ErrorKind::InvalidInput && e.reason == h265_header_reason(
            data@,
        ),
{
    if data.len() < 2 {
        return Err(Error::invalid_input("NAL unit is shorter than 2 bytes"));
    }
    let h = data[0];
    proof {
        assert(h & 0x80 != 0 <==> h >= 0x80) by (bit_vector);
    }
    if h & 0b1000_0000 != 0 {
        return Err(Error::invalid_input("forbidden_zero_bit must be 0"));
    }
    if nuh_temporal_id_plus1(data) == 0 {
        return Err(Error::invalid_input("nuh_temporal_id_plus1 must not be 0"));
    }
    if nuh_layer_id(data) == 63 {
        return Err(Error::invalid_input("nuh_layer_id must be 0..=62"));
    }
    Ok(H265NalUnitType::from_header_value(nal_unit_type(data)))
}

/// Makes an [`H265NalUnit`] of a scanned NAL unit body.
fn to_h265_nal_unit(body: &[u8]) -> (r: Result<H265NalUnit<'_>, Error>)
    ensures
        r is Ok <==> h265_header_ok(body@),
        r matches Ok(u) ==> u.data@ == body@ && u.nal_unit_type == h265_type_of(body@)
            && u.nuh_layer_id == h265_layer_id(body@) && u.nuh_temporal_id_plus1
            == h265_temporal_id_plus1(body@),
        r matches Err(e) ==> e.kind == ErrorKind::InvalidInput && e.reason == h265_header_reason(
            body@,
        ),
{
    let nal_unit_type = validate_h265_nal_header(body)?;
    Ok(
        H265NalUnit {
            nal_unit_type,
            nuh_layer_id: nuh_layer_id(body),
            nuh_temporal_id_plus1: nuh_temporal_id_plus1(body),
            data: body,
        },
    )
}

/// Checks the headers of scanned bodies, in order.
fn to_h265_nal_units<'a>(bodies: &Vec<&'a [u8]>) -> (r: Result<Vec<H265NalUnit<'a>>, Error>)
    ensures
        r is Ok <==> h265_headers_ok(slice_views(bodies@)),
        r matches Ok(v) ==> h265_units_of(v@, slice_views(bodies@)),
        r matches Err(e) ==> e.kind == ErrorKind::InvalidInput && e.reason == h265_headers_reason(
            slice_views(bodies@),
        ),
{
    let ghost views = slice_views(bodies@);
    proof {
        assert(views.skip(0) =~= views);
    }
    let mut out: Vec<H265NalUnit<'a>> = Vec::new();
    let mut i: usize = 0;
    while i < bodies.len()
        invariant
            views == slice_views(bodies@),
            i <= bodies@.len(),
            out@.len() == i,
            forall|k: int| 0 <= k < i ==> h265_header_ok(#[trigger] views[k]),
            forall|k: int|
                0 <= k < i ==> {
                    let u = #[trigger] out@[k];
                    &&& u.data@ == views[k]
                    &&& u.nal_unit_type == h265_type_of(views[k])
                    &&& u.nuh_layer_id == h265_layer_id(views[k])
                    &&& u.nuh_temporal_id_plus1 == h265_temporal_id_plus1(views[k])
                },
            h265_headers_reason(views) == h265_headers_reason(views.skip(i as int)),
        decreases bodies@.len() - i,
    {
        proof {
            assert(views.skip(i as int)[0] == views[i as int]);
            assert(views.skip(i as int).drop_first() =~= views.skip(i + 1));
        }
        let unit = match to_h265_nal_unit(bodies[i]) {
            Ok(u) => u,
            Err(e) => {
                proof {
                    assert(!h265_header_ok(views[i as int]));
                }
                return Err(e);
            },
        };
        out.push(unit);
        i += 1;
    }
    Ok(out)
}

/// Parses an Annex B NAL unit stream (3 or 4 byte start codes).
///
/// Fails where the Annex B scan fails and on units without a valid two byte
/// header; empty input gives no units.
pub fn parse_annexb_nal_units(input: &[u8]) -> (r: Result<Vec<H265NalUnit<'_>>, Error>)
    ensures
        r is Ok <==> (scan_annexb_spec(input@) matches Some(b) && h265_headers_ok(b)),
        r matches Ok(v) ==> h265_units_of(v@, scan_annexb_spec(input@).unwrap()),
        r matches Err(e) ==> e.kind == ErrorKind::InvalidInput && e.reason == h265_annexb_reason(
            input@,
        ),
{
    let bodies = match scan_annexb_nals(input) {
        Ok(b) => b,
        Err(e) => return Err(e),
    };
    to_h265_nal_units(&bodies)
}

/// Parses a length-prefixed NAL unit stream (ISO/IEC 14496-15).
///
/// Fails on a truncated length field or unit, a zero length, and units
/// without a valid two byte header; empty input gives no units.
pub fn parse_length_prefixed_nal_units(input: &[u8], length_size: LengthSize) -> (r: Result<
    Vec<H265NalUnit<'_>>,
    Error,
>)
    ensures
        r is Ok <==> (scan_length_prefixed_spec(input@, length_size) matches Some(b)
            && h265_headers_ok(b)),
        r matches Ok(v) ==> h265_units_of(
            v@,
            scan_length_prefixed_spec(input@, length_size).unwrap(),
        ),
        r matches Err(e) ==> e.kind == ErrorKind::InvalidInput,
{
    let bodies = scan_length_prefixed_nals(input, length_size)?;
    to_h265_nal_units(&bodies)
}

/// Converts Annex B to the length-prefixed form; NAL headers are not checked.
pub fn annexb_to_length_prefixed(input: &[u8], length_size: LengthSize) -> (r: Result<
    Vec<u8>,
    Error,
>)
    ensures
        r is Ok <==> annexb_to_length_prefixed_spec(input@, length_size) is Some,
        r matches Ok(v) ==> annexb_to_length_prefixed_spec(input@, length_size) == Some(v@),
        r matches Err(e) ==> e.kind == ErrorKind::InvalidInput,
{
    crate::nal::annexb_to_length_prefixed(input, length_size)
}

/// Converts the length-prefixed form to Annex B with 4 byte start codes;
/// NAL headers are not checked.
pub fn length_prefixed_to_annexb(input: &[u8], length_size: LengthSize) -> (r: Result<
    Vec<u8>,
    Error,
>)
    ensures
        r is Ok <==> length_prefixed_to_annexb_spec(input@, length_size) is Some,
        r matches Ok(v) ==> length_prefixed_to_annexb_spec(input@, length_size) == Some(v@),
        r matches Err(e) ==> e.kind == ErrorKind::InvalidInput,
{
    crate::nal::length_prefixed_to_annexb(input, length_size)
}

/// The bytes of the units of type `t`, in order.
pub open spec fn h265_collected(nals: Seq<H265NalUnit>, t: H265NalUnitType) -> Seq<Seq<u8>>
    decreases nals.len(),
{
    if nals.len() == 0 {
        Seq::empty()
    } else {
        let prev = h265_collected(nals.drop_last(), t);
        if nals.last().nal_unit_type == t {
            prev.push(nals.last().data@)
        } else {
            prev
        }
    }
}

/// The bytes of the NAL units of type `nal_unit_type`, in input order.
pub fn collect_nal_units<'a>(nals: &[H265NalUnit<'a>], nal_unit_type: H265NalUnitType) -> (r: Vec<
    &'a [u8],
>)
    ensures
        slice_views(r@) == h265_collected(nals@, nal_unit_type),
{
    let mut out: Vec<&'a [u8]> = Vec::new();
    let mut i: usize = 0;
    while i < nals.len()
        invariant
            i <= nals@.len(),
            slice_views(out@) == h265_collected(nals@.take(i as int), nal_unit_type),
        decreases nals@.len() - i,
    {
        let nal = nals[i];
        proof {
            assert(nals@.take(i + 1).drop_last() =~= nals@.take(i as int));
        }
        if nal.nal_unit_type == nal_unit_type {
            let ghost before = slice_views(out@);
            out.push(nal.data);
            proof {
                assert(slice_views(out@) =~= before.push(nal.data@));
            }
        }
        i += 1;
    }
    proof {
        assert(nals@.take(i as int) =~= nals@);
    }
    out
}

} // verus!

verus! {

/// Parsed SPS (ITU-T H.265 7.3.2.2.1 / 7.4.3.2.1).
#[derive(Debug, Clone, Copy, PartialEq, Eq, Hash, Structural)]
pub struct H265Sps {
    /// `general_profile_space` (2 bits)
    pub general_profile_space: u8,
    /// `general_tier_flag`
    pub general_tier_flag: u8,
    /// `general_profile_idc` (5 bits)
    pub general_profile_idc: u8,
    /// `general_profile_compatibility_flags`
    pub general_profile_compatibility_flags: u32,
    /// `general_constraint_indicator_flags` (low 48 bits)
    pub general_constraint_indicator_flags: u64,
    /// `general_level_idc`
    pub general_level_idc: u8,
    /// `sps_max_sub_layers_minus1` (0..=6)
    pub sps_max_sub_layers_minus1: u8,
    /// `sps_temporal_id_nesting_flag`
    pub sps_temporal_id_nesting_flag: u8,
    /// `chroma_format_idc` (0..=3)
    pub chroma_format_idc: u8,
    /// `bit_depth_luma_minus8` (0..=7, what `hvcC` can carry)
    pub bit_depth_luma_minus8: u8,
    /// `bit_depth_chroma_minus8` (0..=7)
    pub bit_depth_chroma_minus8: u8,
    /// Width after the conformance window, in pixels.
    pub width: u16,
    /// Height after the conformance window, in pixels.
    pub height: u16,
}

/// Bit position of the sub-layer present flags in the SPS RBSP.
pub open spec fn h265_flags_pos() -> int {
    104
}

/// Position after the sub-layer profile / level syntax of sub-layers
/// `i .. m`, whose present flags start at bit `fp`.
pub open spec fn h265_sublayers_spec(r: Seq<u8>, fp: int, p: int, i: nat, m: nat) -> Option<int>
    decreases m - i,
{
    if i >= m {
        Some(p)
    } else {
        let q = p + (if bit_at(r, fp + 2 * i) != 0 { 88int } else { 0 }) + (if bit_at(
            r,
            fp + 2 * i + 1,
        ) != 0 {
            8int
        } else {
            0
        });
        if q > bit_len(r) {
            None
        } else {
            h265_sublayers_spec(r, fp, q, i + 1, m)
        }
    }
}

/// Position after `profile_tier_level(1, m)`.
pub open spec fn h265_ptl_end(r: Seq<u8>, m: nat) -> Option<int> {
    let p1 = h265_flags_pos() + 2 * m + (if m > 0 { 2 * (8 - m) } else { 0 });
    if p1 > bit_len(r) {
        None
    } else {
        h265_sublayers_spec(r, h265_flags_pos(), p1, 0, m)
    }
}

/// Width or height after cropping `a + b` units of `unit`: `None` unless
/// the crop is below `size`.
pub open spec fn h265_cropped(size: nat, unit: nat, a: nat, b: nat) -> Option<nat> {
    if unit * (a + b) >= size {
        None
    } else {
        Some((size - unit * (a + b)) as nat)
    }
}

/// `(SubWidthC, SubHeightC)` of `chroma_format_idc` (Table 6-1).
pub open spec fn h265_sub_wh(chroma: nat) -> (nat, nat) {
    if chroma == 1 {
        (2, 2)
    } else if chroma == 2 {
        (2, 1)
    } else {
        (1, 1)
    }
}

/// Conformance window offsets and the position after them.
pub open spec fn h265_conf_spec(r: Seq<u8>, p: int) -> Option<(nat, nat, nat, nat, int)> {
    match ue_spec(r, p) {
        None => None,
        Some((a, q1)) => match ue_spec(r, q1) {
            None => None,
            Some((b, q2)) => match ue_spec(r, q2) {
                None => None,
                Some((c, q3)) => match ue_spec(r, q3) {
                    None => None,
                    Some((d, q4)) => Some((a, b, c, d, q4)),
                },
            },
        },
    }
}

/// Cropped size, or `None` when a window exceeds its side or a side is 0
/// or above `u16::MAX`.
pub open spec fn h265_dims_spec(chroma: nat, w: nat, h: nat, l: nat, rt: nat, t: nat, b: nat) -> Option<(u16, u16)> {
    let (sw, sh) = h265_sub_wh(chroma);
    match (h265_cropped(w, sw, l, rt), h265_cropped(h, sh, t, b)) {
        (Some(cw), Some(ch)) => if cw > 0xffff || ch > 0xffff {
            None
        } else {
            Some((cw as u16, ch as u16))
        },
        _ => None,
    }
}

/// The SPS syntax from `sps_seq_parameter_set_id` through
/// `bit_depth_chroma_minus8`: `(chroma_format_idc, pic_width_in_luma_samples,
/// pic_height_in_luma_samples, conformance window left, right, top, bottom,
/// bit_depth_luma_minus8, bit_depth_chroma_minus8)`; `None` where it ends
/// early or a value is out of range.
pub open spec fn h265_sps_tail_spec(r: Seq<u8>, p: int) -> Option<(nat, nat, nat, nat, nat, nat, nat, nat, nat)> {
    match ue_spec(r, p) {
        None => None,
        Some((_, p3)) => match ue_spec(r, p3) {
            None => None,
            Some((chroma, p4)) => if chroma > 3 {
                None
            } else {
                match (if chroma == 3 {
                    bit_spec(r, p4)
                } else {
                    Some((0u8, p4))
                }) {
                    None => None,
                    Some((_, p5)) => match ue_spec(r, p5) {
                        None => None,
                        Some((w, p6)) => match ue_spec(r, p6) {
                            None => None,
                            Some((h, p7)) => match bit_spec(r, p7) {
                                None => None,
                                Some((conf, p8)) => match (if conf != 0 {
                                    h265_conf_spec(r, p8)
                                } else {
                                    Some((0nat, 0nat, 0nat, 0nat, p8))
                                }) {
                                    None => None,
                                    Some((l, rt, t, b, p9)) => match ue_spec(r, p9) {
                                        None => None,
                                        Some((bdl, p10)) => if bdl > 7 {
                                            None
                                        } else {
                                            match ue_spec(r, p10) {
                                                None => None,
                                                Some((bdc, _)) => if bdc > 7 {
                                                    None
                                                } else {
                                                    Some((chroma, w, h, l, rt, t, b, bdl, bdc))
                                                },
                                            }
                                        },
                                    },
                                },
                            },
                        },
                    },
                }
            },
        },
    }
}

/// The SPS that the RBSP `r` (after the two byte NAL header) describes.
#[verifier::opaque]
pub open spec fn h265_sps_spec(r: Seq<u8>) -> Option<H265Sps> {
    let m = bits_value(r, 4, 3);
    let nest = bit_at(r, 7);
    if bit_len(r) < 104 || m > 6 || (m == 0 && nest == 0) {
        None
    } else {
        match h265_ptl_end(r, m) {
            None => None,
            Some(p2) => match h265_sps_tail_spec(r, p2) {
                None => None,
                Some((chroma, w, h, l, rt, t, b, bdl, bdc)) => match h265_dims_spec(
                    chroma,
                    w,
                    h,
                    l,
                    rt,
                    t,
                    b,
                ) {
                    None => None,
                    Some((cw, ch)) => Some(
                        H265Sps {
                            general_profile_space: bits_value(r, 8, 2) as u8,
                            general_tier_flag: bit_at(r, 10),
                            general_profile_idc: bits_value(r, 11, 5) as u8,
                            general_profile_compatibility_flags: bits_value(r, 16, 32) as u32,
                            general_constraint_indicator_flags: bits_value(r, 48, 48) as u64,
                            general_level_idc: bits_value(r, 96, 8) as u8,
                            sps_max_sub_layers_minus1: m as u8,
                            sps_temporal_id_nesting_flag: nest,
                            chroma_format_idc: chroma as u8,
                            bit_depth_luma_minus8: bdl as u8,
                            bit_depth_chroma_minus8: bdc as u8,
                            width: cw,
                            height: ch,
                        },
                    ),
                },
            },
        }
    }
}

/// The SPS that the NAL unit `nal` (two header bytes and EBSP) describes:
/// `None` unless its header is valid, of type 33 with `TemporalId` 0, and
/// its RBSP parses.
pub open spec fn h265_parse_sps_spec(nal: Seq<u8>) -> Option<H265Sps> {
    if !h265_header_ok(nal) || h265_type_of(nal) != H265NalUnitType::Sps
        || h265_temporal_id_plus1(nal) != 1 {
        None
    } else {
        h265_sps_spec(rbsp_of(nal.subrange(2, nal.len() as int)))
    }
}

proof fn lemma_h265_dims_table(chroma: nat, w: nat, h: nat, l: nat, rt: nat, t: nat, b: nat)
    requires
        h265_dims_spec(chroma, w, h, l, rt, t, b) is Some,
    ensures
        ({
            let sub_w: int = if chroma == 1 || chroma == 2 { 2 } else { 1 };
            let sub_h: int = if chroma == 1 { 2 } else { 1 };
            let (cw, ch) = h265_dims_spec(chroma, w, h, l, rt, t, b).unwrap();
            &&& sub_w * (l + rt) < w
            &&& cw == w - sub_w * (l + rt)
            &&& sub_h * (t + b) < h
            &&& ch == h - sub_h * (t + b)
        }),
{
    let (sw, sh) = h265_sub_wh(chroma);
    if chroma == 1 {
        assert(sw == 2 && sh == 2);
    } else if chroma == 2 {
        assert(sw == 2 && sh == 1);
    } else {
        assert(sw == 1 && sh == 1);
    }
}

/// The width and height of a parsed SPS are `pic_width_in_luma_samples`
/// and `pic_height_in_luma_samples` less the conformance window offsets in
/// chroma sample units (7.4.3.2.1 with Table 6-1): horizontally `SubWidthC`
/// (2 for 4:2:0 and 4:2:2, else 1) times `conf_win_left_offset +
/// conf_win_right_offset`, vertically `SubHeightC` (2 for 4:2:0, else 1)
/// times `conf_win_top_offset + conf_win_bottom_offset`; the window always
/// leaves a non-empty picture.
pub proof fn lemma_h265_cropped_size(r: Seq<u8>)
    requires
        h265_sps_spec(r) is Some,
    ensures
        ({
            let m = bits_value(r, 4, 3);
            let (chroma, w, h, l, rt, t, b, _, _) = h265_sps_tail_spec(
                r,
                h265_ptl_end(r, m).unwrap(),
            ).unwrap();
            let sub_w: int = if chroma == 1 || chroma == 2 { 2 } else { 1 };
            let sub_h: int = if chroma == 1 { 2 } else { 1 };
            let sps = h265_sps_spec(r).unwrap();
            &&& sps.chroma_format_idc == chroma
            &&& sub_w * (l + rt) < w
            &&& sps.width == w - sub_w * (l + rt)
            &&& sub_h * (t + b) < h
            &&& sps.height == h - sub_h * (t + b)
        }),
{
    reveal(h265_sps_spec);
    let m = bits_value(r, 4, 3);
    let (chroma, w, h, l, rt, t, b, _, _) = h265_sps_tail_spec(r, h265_ptl_end(r, m).unwrap()).unwrap();
    lemma_h265_dims_table(chroma, w, h, l, rt, t, b);
}

/// A parsed SPS holds its fields within their bit widths, at most 7
/// sub-layers, `chroma_format_idc` 0..=3 and bit depths 0..=7 above 8.
pub proof fn lemma_h265_sps_bounds(nal: Seq<u8>)
    ensures
        h265_parse_sps_spec(nal) matches Some(s) ==> {
            &&& s.general_profile_space <= 3
            &&& s.general_tier_flag <= 1
            &&& s.general_profile_idc <= 31
            &&& s.general_constraint_indicator_flags < 0x1_0000_0000_0000
            &&& s.sps_max_sub_layers_minus1 <= 6
            &&& s.sps_temporal_id_nesting_flag <= 1
            &&& s.chroma_format_idc <= 3
            &&& s.bit_depth_luma_minus8 <= 7
            &&& s.bit_depth_chroma_minus8 <= 7
        },
{
    if h265_parse_sps_spec(nal) is Some {
        reveal(h265_sps_spec);
        let r = rbsp_of(nal.subrange(2, nal.len() as int));
        crate::bits::lemma_two_pow_values();
        crate::bits::lemma_bits_value_bound(r, 8, 2);
        crate::bits::lemma_bits_value_bound(r, 11, 5);
        crate::bits::lemma_bits_value_bound(r, 48, 48);
        crate::bits::lemma_bits_value_bound(r, 4, 3);
        crate::bits::lemma_bit_at_is_bit(r, 10);
        crate::bits::lemma_bit_at_is_bit(r, 7);
    }
}

/// Skips the sub-layer profile / level syntax, given the present flags.
fn skip_sublayers(reader: &mut BitReader, profile_present: &Vec<u8>, level_present: &Vec<u8>, m: u8) -> (r: Result<(), Error>)
    requires
        old(reader).wf(),
        m <= 6,
        profile_present@.len() == m,
        level_present@.len() == m,
        forall|i: int|
            0 <= i < m ==> #[trigger] profile_present@[i] == bit_at(
                old(reader).data(),
                h265_flags_pos() + 2 * i,
            ) && level_present@[i] == bit_at(old(reader).data(), h265_flags_pos() + 2 * i + 1),
    ensures
        final(reader).wf(),
        final(reader).data() == old(reader).data(),
        r is Ok <==> h265_sublayers_spec(
            old(reader).data(),
            h265_flags_pos(),
            old(reader).pos(),
            0,
            m as nat,
        ) is Some,
        r is Ok ==> h265_sublayers_spec(
            old(reader).data(),
            h265_flags_pos(),
            old(reader).pos(),
            0,
            m as nat,
        ) == Some(final(reader).pos()),
        r matches Err(e) ==> e.kind == ErrorKind::InvalidInput,
{
    let ghost s = reader.data();
    let ghost target = h265_sublayers_spec(s, h265_flags_pos(), reader.pos(), 0, m as nat);
    let mut i: usize = 0;
    while i < m as usize
        invariant
            reader.wf(),
            reader.data() == s,
            s == old(reader).data(),
            m <= 6,
            profile_present@.len() == m,
            level_present@.len() == m,
            forall|k: int|
                0 <= k < m ==> #[trigger] profile_present@[k] == bit_at(s, h265_flags_pos() + 2 * k)
                    && level_present@[k] == bit_at(s, h265_flags_pos() + 2 * k + 1),
            i <= m,
            target == h265_sublayers_spec(s, h265_flags_pos(), old(reader).pos(), 0, m as nat),
            target == h265_sublayers_spec(s, h265_flags_pos(), reader.pos(), i as nat, m as nat),
        decreases m - i,
    {
        let ghost p = reader.pos();
        proof {
            reader.lemma_wf();
            assert(profile_present@[i as int] == bit_at(s, h265_flags_pos() + 2 * i));
        }
        let pp = profile_present[i];
        let lp = level_present[i];
        let ghost q = p + (if pp != 0 { 88int } else { 0 }) + (if lp != 0 { 8int } else { 0 });
        if pp != 0 {
            reader.skip_bits(88)?;
        }
        if lp != 0 {
            proof {
                if q > bit_len(s) {
                    assert(reader.pos() + 8 > bit_len(s));
                }
            }
            reader.skip_bits(8)?;
        }
        proof {
            assert(reader.pos() == q);
        }
        i += 1;
    }
    Ok(())
}

} // verus!

verus! {

/// Applies the conformance window to the coded size.
fn cropped_size(chroma: u32, w: u32, h: u32, l: u32, rt: u32, t: u32, b: u32) -> (r: Result<
    (u16, u16),
    Error,
>)
    ensures
        r is Ok <==> h265_dims_spec(
            chroma as nat,
            w as nat,
            h as nat,
            l as nat,
            rt as nat,
            t as nat,
            b as nat,
        ) is Some,
        r matches Ok(d) ==> h265_dims_spec(
            chroma as nat,
            w as nat,
            h as nat,
            l as nat,
            rt as nat,
            t as nat,
            b as nat,
        ) == Some(d),
        r matches Err(e) ==> e.kind == ErrorKind::InvalidInput,
{
    let sum_x = l as u64 + rt as u64;
    let sum_y = t as u64 + b as u64;
    let crop_x = if chroma == 1 || chroma == 2 {
        2 * sum_x
    } else {
        sum_x
    };
    let crop_y = if chroma == 1 {
        2 * sum_y
    } else {
        sum_y
    };
    proof {
        let (sw, sh) = h265_sub_wh(chroma as nat);
        assert(crop_x == sw * sum_x) by (nonlinear_arith)
            requires
                sw == 1 || sw == 2,
                sw == 1 ==> crop_x == sum_x,
                sw == 2 ==> crop_x == 2 * sum_x,
        ;
        assert(crop_y == sh * sum_y) by (nonlinear_arith)
            requires
                sh == 1 || sh == 2,
                sh == 1 ==> crop_y == sum_y,
                sh == 2 ==> crop_y == 2 * sum_y,
        ;
    }
    if crop_x >= w as u64 {
        return Err(Error::invalid_input("conformance window exceeds the coded width"));
    }
    if crop_y >= h as u64 {
        return Err(Error::invalid_input("conformance window exceeds the coded height"));
    }
    let cropped_width = w as u64 - crop_x;
    let cropped_height = h as u64 - crop_y;
    if cropped_width > 0xffff {
        return Err(Error::invalid_input("frame width exceeds u16::MAX"));
    }
    if cropped_height > 0xffff {
        return Err(Error::invalid_input("frame height exceeds u16::MAX"));
    }
    Ok((cropped_width as u16, cropped_height as u16))
}

/// Reads the four conformance window offsets.
fn read_conf(reader: &mut BitReader) -> (r: Result<(u32, u32, u32, u32), Error>)
    requires
        old(reader).wf(),
    ensures
        final(reader).wf(),
        final(reader).data() == old(reader).data(),
        r is Ok <==> h265_conf_spec(old(reader).data(), old(reader).pos()) is Some,
        r matches Ok((a, b, c, d)) ==> h265_conf_spec(old(reader).data(), old(reader).pos())
            == Some((a as nat, b as nat, c as nat, d as nat, final(reader).pos())),
        r matches Err(e) ==> e.kind == ErrorKind::InvalidInput,
{
    let a = reader.read_ue()?;
    let b = reader.read_ue()?;
    let c = reader.read_ue()?;
    let d = reader.read_ue()?;
    Ok((a, b, c, d))
}

/// Reads the `m` pairs of sub-layer present flags.
fn read_sublayer_flags(reader: &mut BitReader, m: u8) -> (r: Result<(Vec<u8>, Vec<u8>), Error>)
    requires
        old(reader).wf(),
        old(reader).pos() == h265_flags_pos(),
        m <= 6,
    ensures
        final(reader).wf(),
        final(reader).data() == old(reader).data(),
        r is Ok <==> h265_flags_pos() + 2 * m <= bit_len(old(reader).data()),
        r matches Ok((pf, lf)) ==> {
            &&& final(reader).pos() == h265_flags_pos() + 2 * m
            &&& pf@.len() == m
            &&& lf@.len() == m
            &&& forall|k: int|
                0 <= k < m ==> #[trigger] pf@[k] == bit_at(
                    old(reader).data(),
                    h265_flags_pos() + 2 * k,
                ) && lf@[k] == bit_at(old(reader).data(), h265_flags_pos() + 2 * k + 1)
        },
        r matches Err(e) ==> e.kind == ErrorKind::InvalidInput,
{
    let ghost r = reader.data();
    let mut profile_present: Vec<u8> = Vec::new();
    let mut level_present: Vec<u8> = Vec::new();
    let mut i: u8 = 0;
    while i < m
        invariant
            reader.wf(),
            reader.data() == r,
            r == old(reader).data(),
            m <= 6,
            i <= m,
            reader.pos() == h265_flags_pos() + 2 * i,
            profile_present@.len() == i,
            level_present@.len() == i,
            forall|k: int|
                0 <= k < i ==> #[trigger] profile_present@[k] == bit_at(r, h265_flags_pos() + 2 * k)
                    && level_present@[k] == bit_at(r, h265_flags_pos() + 2 * k + 1),
        decreases m - i,
    {
        let pp = reader.read_bit()?;
        let lp = match reader.read_bit() {
            Ok(v) => v,
            Err(e) => {
                proof {
                    assert(h265_flags_pos() + 2 * m > bit_len(r));
                }
                return Err(e);
            },
        };
        profile_present.push(pp);
        level_present.push(lp);
        i += 1;
    }
    proof {
        reader.lemma_wf();
    }
    Ok((profile_present, level_present))
}

/// Reads the SPS syntax from `sps_seq_parameter_set_id` through the bit depths.
fn read_sps_tail(reader: &mut BitReader) -> (r: Result<(u32, u32, u32, u32, u32, u32, u32, u32, u32), Error>)
    requires
        old(reader).wf(),
    ensures
        final(reader).wf(),
        final(reader).data() == old(reader).data(),
        r is Ok <==> h265_sps_tail_spec(old(reader).data(), old(reader).pos()) is Some,
        r matches Ok((c, w, h, l, rt, t, b, bl, bc)) ==> h265_sps_tail_spec(
            old(reader).data(),
            old(reader).pos(),
        ) == Some(
            (
                c as nat,
                w as nat,
                h as nat,
                l as nat,
                rt as nat,
                t as nat,
                b as nat,
                bl as nat,
                bc as nat,
            ),
        ),
        r matches Err(e) ==> e.kind == ErrorKind::InvalidInput,
{
    let _sps_seq_parameter_set_id = reader.read_ue()?;
    let chroma_format_idc = reader.read_ue()?;
    if chroma_format_idc > 3 {
        return Err(Error::invalid_input("chroma_format_idc must be 0..=3"));
    }
    if chroma_format_idc == 3 {
        let _separate_colour_plane_flag = reader.read_bit()?;
    }
    let pic_width_in_luma_samples = reader.read_ue()?;
    let pic_height_in_luma_samples = reader.read_ue()?;
    let conformance_window_flag = reader.read_bit()?;
    let (l, rt, t, b) = if conformance_window_flag != 0 {
        read_conf(reader)?
    } else {
        (0, 0, 0, 0)
    };
    let bit_depth_luma_minus8 = reader.read_ue()?;
    if bit_depth_luma_minus8 > 7 {
        return Err(Error::invalid_input("bit_depth_luma_minus8 must be 0..=7"));
    }
    let bit_depth_chroma_minus8 = reader.read_ue()?;
    if bit_depth_chroma_minus8 > 7 {
        return Err(Error::invalid_input("bit_depth_chroma_minus8 must be 0..=7"));
    }
    Ok(
        (
            chroma_format_idc,
            pic_width_in_luma_samples,
            pic_height_in_luma_samples,
            l,
            rt,
            t,
            b,
            bit_depth_luma_minus8,
            bit_depth_chroma_minus8,
        ),
    )
}

/// Parses an SPS NAL unit (two header bytes and EBSP).
///
/// Fails on an invalid header, a type other than 33, a `TemporalId` other
/// than 0, values out of range (`sps_max_sub_layers_minus1 > 6`,
/// `chroma_format_idc > 3`, bit depths above 7), a zero
/// `sps_temporal_id_nesting_flag` with a single sub-layer, syntax that ends
/// before the bit depths, a conformance window not below the coded size, and
/// a cropped side above `u16::MAX`.
pub fn parse_sps(nal_unit: &[u8]) -> (r: Result<H265Sps, Error>)
    ensures
        r is Ok <==> h265_parse_sps_spec(nal_unit@) is Some,
        r matches Ok(s) ==> h265_parse_sps_spec(nal_unit@) == Some(s),
        r matches Ok(s) ==> s.sps_max_sub_layers_minus1 <= 6,
        r matches Err(e) ==> e.kind == ErrorKind::InvalidInput,
{
    proof {
        reveal(h265_sps_spec);
    }
    let nal_unit_type = validate_h265_nal_header(nal_unit)?;
    if nal_unit_type != H265NalUnitType::Sps {
        return Err(Error::invalid_input("SPS NAL unit type must be 33"));
    }
    if nuh_temporal_id_plus1(nal_unit) != 1 {
        return Err(Error::invalid_input("SPS TemporalId must be 0"));
    }
    let rbsp = remove_emulation_prevention_bytes(&nal_unit[2..nal_unit.len()]);
    let mut reader = BitReader::new(rbsp.as_slice());
    let ghost r = rbsp@;
    proof {
        crate::bits::lemma_two_pow_values();
        crate::bits::lemma_bits_value_bound(r, 4, 3);
    }
    let _sps_video_parameter_set_id = reader.read_bits(4)?;
    let sps_max_sub_layers_minus1 = reader.read_bits(3)? as u8;
    if sps_max_sub_layers_minus1 > 6 {
        return Err(Error::invalid_input("sps_max_sub_layers_minus1 must be 0..=6"));
    }
    let sps_temporal_id_nesting_flag = reader.read_bit()?;
    if sps_max_sub_layers_minus1 == 0 && sps_temporal_id_nesting_flag == 0 {
        return Err(
            Error::invalid_input(
                "sps_temporal_id_nesting_flag must be 1 when sps_max_sub_layers_minus1 is 0",
            ),
        );
    }
    let general_profile_space = reader.read_bits(2)? as u8;
    let general_tier_flag = reader.read_bit()?;
    let general_profile_idc = reader.read_bits(5)? as u8;
    let general_profile_compatibility_flags = reader.read_bits(32)? as u32;
    let general_constraint_indicator_flags = reader.read_bits(48)?;
    let general_level_idc = reader.read_bits(8)? as u8;
    let m = sps_max_sub_layers_minus1;
    let (profile_present, level_present) = read_sublayer_flags(&mut reader, m)?;
    if m > 0 {
        reader.skip_bits(2 * (8 - m as u32))?;
    }
    skip_sublayers(&mut reader, &profile_present, &level_present, m)?;
    let (
        chroma_format_idc,
        pic_width_in_luma_samples,
        pic_height_in_luma_samples,
        l,
        rt,
        t,
        b,
        bit_depth_luma_minus8,
        bit_depth_chroma_minus8,
    ) = read_sps_tail(&mut reader)?;
    let (width, height) = cropped_size(
        chroma_format_idc,
        pic_width_in_luma_samples,
        pic_height_in_luma_samples,
        l,
        rt,
        t,
        b,
    )?;
    Ok(
        H265Sps {
            general_profile_space,
            general_tier_flag,
            general_profile_idc,
            general_profile_compatibility_flags,
            general_constraint_indicator_flags,
            general_level_idc,
            sps_max_sub_layers_minus1,
            sps_temporal_id_nesting_flag,
            chroma_format_idc: chroma_format_idc as u8,
            bit_depth_luma_minus8: bit_depth_luma_minus8 as u8,
            bit_depth_chroma_minus8: bit_depth_chroma_minus8 as u8,
            width,
            height,
        },
    )
}

} // verus!

verus! {

/// Settings of an `hev1` / `hvc1` entry that the stream does not determine.
#[derive(Debug, Clone, Copy, PartialEq, Eq, Hash)]
pub struct H265SampleEntryConfig {
    /// Width of the NAL length fields.
    pub length_size: LengthSize,
}

/// `b` is a parameter set of type `t` that `hvcC` can carry (at most 65535
/// bytes, valid header), with `TemporalId` 0 where `tid_zero`.
pub open spec fn h265_param_ok(b: Seq<u8>, t: H265NalUnitType, tid_zero: bool) -> bool {
    &&& b.len() <= 0xffff
    &&& h265_header_ok(b)
    &&& h265_type_of(b) == t
    &&& tid_zero ==> h265_temporal_id_plus1(b) == 1
}

/// The parameter sets the `hvcC` builders accept: 1 to 65535 of each kind,
/// all fitting `hvcC`, VPSs and SPSs with `TemporalId` 0, and a first SPS
/// that parses.
pub open spec fn hvcc_inputs_ok(vps: Seq<Seq<u8>>, sps: Seq<Seq<u8>>, pps: Seq<Seq<u8>>) -> bool {
    &&& 1 <= vps.len() <= 65535
    &&& 1 <= sps.len() <= 65535
    &&& 1 <= pps.len() <= 65535
    &&& forall|i: int|
        0 <= i < vps.len() ==> h265_param_ok(#[trigger] vps[i], H265NalUnitType::Vps, true)
    &&& forall|i: int|
        0 <= i < sps.len() ==> h265_param_ok(#[trigger] sps[i], H265NalUnitType::Sps, true)
    &&& forall|i: int|
        0 <= i < pps.len() ==> h265_param_ok(#[trigger] pps[i], H265NalUnitType::Pps, false)
    &&& h265_parse_sps_spec(sps[0]) is Some
}

/// `a` is the `hvcC` array of NAL unit type `t` holding `nalus`.
pub open spec fn hvcc_array_of(a: HvccNalUintArray, completeness: u8, t: u8, nalus: Seq<Seq<u8>>) -> bool {
    a.array_completeness == completeness && a.nal_unit_type == t && byte_lists(a.nalus@) == nalus
}

/// `c` is the `hvcC` built from the parameter sets, whose first SPS is `s`,
/// with NAL length fields of `ls` and the given `array_completeness`.
pub open spec fn hvcc_of(
    vps: Seq<Seq<u8>>,
    sps: Seq<Seq<u8>>,
    pps: Seq<Seq<u8>>,
    s: H265Sps,
    ls: LengthSize,
    completeness: u8,
    c: HvccBox,
) -> bool {
    &&& c.general_profile_space == s.general_profile_space
    &&& c.general_tier_flag == s.general_tier_flag
    &&& c.general_profile_idc == s.general_profile_idc
    &&& c.general_profile_compatibility_flags == s.general_profile_compatibility_flags
    &&& c.general_constraint_indicator_flags == s.general_constraint_indicator_flags
    &&& c.general_level_idc == s.general_level_idc
    &&& c.min_spatial_segmentation_idc == 0
    &&& c.parallelism_type == 0
    &&& c.chroma_format_idc == s.chroma_format_idc
    &&& c.bit_depth_luma_minus8 == s.bit_depth_luma_minus8
    &&& c.bit_depth_chroma_minus8 == s.bit_depth_chroma_minus8
    &&& c.avg_frame_rate == 0
    &&& c.constant_frame_rate == 0
    &&& c.num_temporal_layers == s.sps_max_sub_layers_minus1 + 1
    &&& c.temporal_id_nested == s.sps_temporal_id_nesting_flag
    &&& c.length_size_minus_one + 1 == ls.width()
    &&& c.nalu_arrays@.len() == 3
    &&& hvcc_array_of(c.nalu_arrays@[0], completeness, 32, vps)
    &&& hvcc_array_of(c.nalu_arrays@[1], completeness, 33, sps)
    &&& hvcc_array_of(c.nalu_arrays@[2], completeness, 34, pps)
}

/// Checks that every entry is at most 65535 bytes.
fn check_lengths(list: &[Vec<u8>]) -> (r: Result<(), Error>)
    ensures
        r is Ok <==> forall|i: int| 0 <= i < list@.len() ==> (#[trigger] list@[i])@.len() <= 0xffff,
        r matches Err(e) ==> e.kind == ErrorKind::InvalidInput,
{
    let mut i: usize = 0;
    while i < list.len()
        invariant
            i <= list@.len(),
            forall|k: int| 0 <= k < i ==> (#[trigger] list@[k])@.len() <= 0xffff,
        decreases list@.len() - i,
    {
        if list[i].len() > 0xffff {
            return Err(Error::invalid_input("parameter set is too long (max u16::MAX)"));
        }
        i += 1;
    }
    Ok(())
}

/// Checks the header of every parameter set: valid, of type `expected`,
/// and with `TemporalId` 0 where `require_temporal_id_zero`.
fn validate_parameter_sets(list: &[Vec<u8>], expected: H265NalUnitType, require_temporal_id_zero: bool) -> (r:
    Result<(), Error>)
    ensures
        r is Ok <==> forall|i: int|
            0 <= i < list@.len() ==> {
                let b = (#[trigger] list@[i])@;
                h265_header_ok(b) && h265_type_of(b) == expected && (require_temporal_id_zero
                    ==> h265_temporal_id_plus1(b) == 1)
            },
        r matches Err(e) ==> e.kind == ErrorKind::InvalidInput,
{
    let mut i: usize = 0;
    while i < list.len()
        invariant
            i <= list@.len(),
            forall|k: int|
                0 <= k < i ==> {
                    let b = (#[trigger] list@[k])@;
                    h265_header_ok(b) && h265_type_of(b) == expected && (require_temporal_id_zero
                        ==> h265_temporal_id_plus1(b) == 1)
                },
        decreases list@.len() - i,
    {
        let nal = list[i].as_slice();
        if validate_h265_nal_header(nal)? != expected {
            return Err(
                Error::invalid_input("parameter set NAL unit type does not match the expected type"),
            );
        }
        if require_temporal_id_zero && nuh_temporal_id_plus1(nal) != 1 {
            return Err(Error::invalid_input("parameter set TemporalId must be 0"));
        }
        i += 1;
    }
    Ok(())
}

/// Builds `hvcC` and the visual fields from VPS / SPS / PPS NAL units
/// (EBSP, no start codes), with `array_completeness` for all three arrays.
fn build_hvcc_box_and_visual(
    vps_list: &[Vec<u8>],
    sps_list: &[Vec<u8>],
    pps_list: &[Vec<u8>],
    config: &H265SampleEntryConfig,
    array_completeness: u8,
) -> (r: Result<(HvccBox, VisualSampleEntryFields), Error>)
    ensures
        r is Ok <==> hvcc_inputs_ok(byte_lists(vps_list@), byte_lists(sps_list@), byte_lists(pps_list@)),
        r matches Ok((c, v)) ==> {
            let s = h265_parse_sps_spec(byte_lists(sps_list@)[0]).unwrap();
            &&& hvcc_of(
                byte_lists(vps_list@),
                byte_lists(sps_list@),
                byte_lists(pps_list@),
                s,
                config.length_size,
                array_completeness,
                c,
            )
            &&& is_default_visual(v, DEFAULT_DATA_REFERENCE_INDEX, s.width, s.height)
        },
        r matches Err(e) ==> e.kind == ErrorKind::InvalidInput,
{
    if sps_list.len() == 0 {
        return Err(Error::invalid_input("SPS list must not be empty"));
    }
    if vps_list.len() == 0 {
        return Err(Error::invalid_input("VPS list must not be empty"));
    }
    if pps_list.len() == 0 {
        return Err(Error::invalid_input("PPS list must not be empty"));
    }
    if vps_list.len() > MAX_NALUS_PER_ARRAY || sps_list.len() > MAX_NALUS_PER_ARRAY
        || pps_list.len() > MAX_NALUS_PER_ARRAY {
        return Err(Error::invalid_input("too many parameter sets (max u16::MAX)"));
    }
    proof {
        assert(byte_lists(sps_list@)[0] == sps_list@[0]@);
        assert(forall|i: int|
            #![trigger vps_list@[i]]
            #![trigger byte_lists(vps_list@)[i]]
            0 <= i < vps_list@.len() ==> byte_lists(vps_list@)[i] == vps_list@[i]@);
        assert(forall|i: int|
            #![trigger sps_list@[i]]
            #![trigger byte_lists(sps_list@)[i]]
            0 <= i < sps_list@.len() ==> byte_lists(sps_list@)[i] == sps_list@[i]@);
        assert(forall|i: int|
            #![trigger pps_list@[i]]
            #![trigger byte_lists(pps_list@)[i]]
            0 <= i < pps_list@.len() ==> byte_lists(pps_list@)[i] == pps_list@[i]@);
    }
    check_lengths(vps_list)?;
    check_lengths(sps_list)?;
    check_lengths(pps_list)?;
    validate_parameter_sets(vps_list, H265NalUnitType::Vps, true)?;
    validate_parameter_sets(sps_list, H265NalUnitType::Sps, true)?;
    validate_parameter_sets(pps_list, H265NalUnitType::Pps, false)?;
    let sps = parse_sps(sps_list[0].as_slice())?;
    let mut nalu_arrays: Vec<HvccNalUintArray> = Vec::new();
    let vps_copy = copy_byte_lists(vps_list);
    let sps_copy = copy_byte_lists(sps_list);
    let pps_copy = copy_byte_lists(pps_list);
    proof {
        assert(byte_lists(vps_copy@) =~= byte_lists(vps_list@));
        assert(byte_lists(sps_copy@) =~= byte_lists(sps_list@));
        assert(byte_lists(pps_copy@) =~= byte_lists(pps_list@));
    }
    nalu_arrays.push(
        HvccNalUintArray { array_completeness, nal_unit_type: NAL_UNIT_TYPE_VPS, nalus: vps_copy },
    );
    nalu_arrays.push(
        HvccNalUintArray { array_completeness, nal_unit_type: NAL_UNIT_TYPE_SPS, nalus: sps_copy },
    );
    nalu_arrays.push(
        HvccNalUintArray { array_completeness, nal_unit_type: NAL_UNIT_TYPE_PPS, nalus: pps_copy },
    );
    let hvcc_box = HvccBox {
        general_profile_space: sps.general_profile_space,
        general_tier_flag: sps.general_tier_flag,
        general_profile_idc: sps.general_profile_idc,
        general_profile_compatibility_flags: sps.general_profile_compatibility_flags,
        general_constraint_indicator_flags: sps.general_constraint_indicator_flags,
        general_level_idc: sps.general_level_idc,
        min_spatial_segmentation_idc: 0,
        parallelism_type: 0,
        chroma_format_idc: sps.chroma_format_idc,
        bit_depth_luma_minus8: sps.bit_depth_luma_minus8,
        bit_depth_chroma_minus8: sps.bit_depth_chroma_minus8,
        avg_frame_rate: 0,
        constant_frame_rate: 0,
        num_temporal_layers: sps.sps_max_sub_layers_minus1 + 1,
        temporal_id_nested: sps.sps_temporal_id_nesting_flag,
        length_size_minus_one: config.length_size.length_size_minus_one(),
        nalu_arrays,
    };
    let visual = make_visual(DEFAULT_DATA_REFERENCE_INDEX, sps.width, sps.height);
    Ok((hvcc_box, visual))
}

/// `b` is the `hev1` entry built from the parameter sets: `hvcC` with
/// `array_completeness` 0, default visual fields sized by the first SPS.
pub open spec fn hev1_box_of(
    vps: Seq<Seq<u8>>,
    sps: Seq<Seq<u8>>,
    pps: Seq<Seq<u8>>,
    ls: LengthSize,
    b: Hev1Box,
) -> bool {
    let s = h265_parse_sps_spec(sps[0]).unwrap();
    &&& hvcc_of(vps, sps, pps, s, ls, 0, b.hvcc_box)
    &&& is_default_visual(b.visual, DEFAULT_DATA_REFERENCE_INDEX, s.width, s.height)
    &&& b.unknown_boxes@.len() == 0
}

/// `b` is the `hvc1` entry built from the parameter sets: `hvcC` with
/// `array_completeness` 1, default visual fields sized by the first SPS.
pub open spec fn hvc1_box_of(
    vps: Seq<Seq<u8>>,
    sps: Seq<Seq<u8>>,
    pps: Seq<Seq<u8>>,
    ls: LengthSize,
    b: Hvc1Box,
) -> bool {
    let s = h265_parse_sps_spec(sps[0]).unwrap();
    &&& hvcc_of(vps, sps, pps, s, ls, 1, b.hvcc_box)
    &&& is_default_visual(b.visual, DEFAULT_DATA_REFERENCE_INDEX, s.width, s.height)
    &&& b.unknown_boxes@.len() == 0
}

/// Two `hvcC` records agree in every field and every array (its NAL type
/// and units), except perhaps the arrays' `array_completeness`.
pub open spec fn hvcc_same_but_completeness(a: HvccBox, b: HvccBox) -> bool {
    &&& a.general_profile_space == b.general_profile_space
    &&& a.general_tier_flag == b.general_tier_flag
    &&& a.general_profile_idc == b.general_profile_idc
    &&& a.general_profile_compatibility_flags == b.general_profile_compatibility_flags
    &&& a.general_constraint_indicator_flags == b.general_constraint_indicator_flags
    &&& a.general_level_idc == b.general_level_idc
    &&& a.min_spatial_segmentation_idc == b.min_spatial_segmentation_idc
    &&& a.parallelism_type == b.parallelism_type
    &&& a.chroma_format_idc == b.chroma_format_idc
    &&& a.bit_depth_luma_minus8 == b.bit_depth_luma_minus8
    &&& a.bit_depth_chroma_minus8 == b.bit_depth_chroma_minus8
    &&& a.avg_frame_rate == b.avg_frame_rate
    &&& a.constant_frame_rate == b.constant_frame_rate
    &&& a.num_temporal_layers == b.num_temporal_layers
    &&& a.temporal_id_nested == b.temporal_id_nested
    &&& a.length_size_minus_one == b.length_size_minus_one
    &&& a.nalu_arrays@.len() == b.nalu_arrays@.len()
    &&& forall|k: int|
        0 <= k < a.nalu_arrays@.len() ==> (#[trigger] a.nalu_arrays@[k]).nal_unit_type
            == b.nalu_arrays@[k].nal_unit_type && byte_lists(a.nalu_arrays@[k].nalus@) == byte_lists(
            b.nalu_arrays@[k].nalus@,
        )
}

/// Two visual sample entry field sets agree in every field.
pub open spec fn same_visual(a: VisualSampleEntryFields, b: VisualSampleEntryFields) -> bool {
    &&& a.data_reference_index == b.data_reference_index
    &&& a.width == b.width
    &&& a.height == b.height
    &&& a.horizresolution == b.horizresolution
    &&& a.vertresolution == b.vertresolution
    &&& a.frame_count == b.frame_count
    &&& a.compressorname@ == b.compressorname@
    &&& a.depth == b.depth
}

/// `hvc1` and `hev1` built from the same parameter sets differ only in
/// `array_completeness`: 1 in every array of the `hvc1` entry, 0 in every
/// array of the `hev1` entry (both builders succeed on the same inputs,
/// see their contracts).
pub proof fn lemma_hvc1_hev1_differ_in_completeness(
    vps: Seq<Seq<u8>>,
    sps: Seq<Seq<u8>>,
    pps: Seq<Seq<u8>>,
    ls: LengthSize,
    b1: Hvc1Box,
    b0: Hev1Box,
)
    requires
        hvc1_box_of(vps, sps, pps, ls, b1),
        hev1_box_of(vps, sps, pps, ls, b0),
    ensures
        same_visual(b1.visual, b0.visual),
        hvcc_same_but_completeness(b1.hvcc_box, b0.hvcc_box),
        b1.unknown_boxes@.len() == 0 && b0.unknown_boxes@.len() == 0,
        forall|k: int|
            0 <= k < b1.hvcc_box.nalu_arrays@.len() ==> (#[trigger] b1.hvcc_box.nalu_arrays@[k]).array_completeness
                == 1 && b0.hvcc_box.nalu_arrays@[k].array_completeness == 0,
{
    let a1 = b1.hvcc_box.nalu_arrays@;
    let a0 = b0.hvcc_box.nalu_arrays@;
    assert forall|k: int| 0 <= k < a1.len() implies (#[trigger] a1[k]).nal_unit_type == a0[k].nal_unit_type
        && byte_lists(a1[k].nalus@) == byte_lists(a0[k].nalus@) && a1[k].array_completeness == 1
        && a0[k].array_completeness == 0 by {
        assert(k == 0 || k == 1 || k == 2);
    }
}

/// Builds an `hev1` sample entry (parameter sets may also appear in band:
/// `array_completeness` 0) from VPS / SPS / PPS NAL units.
pub fn build_hev1_box(
    vps_list: &[Vec<u8>],
    sps_list: &[Vec<u8>],
    pps_list: &[Vec<u8>],
    config: &H265SampleEntryConfig,
) -> (r: Result<Hev1Box, Error>)
    ensures
        r is Ok <==> hvcc_inputs_ok(byte_lists(vps_list@), byte_lists(sps_list@), byte_lists(pps_list@)),
        r matches Ok(b) ==> hev1_box_of(
            byte_lists(vps_list@),
            byte_lists(sps_list@),
            byte_lists(pps_list@),
            config.length_size,
            b,
        ),
        r matches Err(e) ==> e.kind == ErrorKind::InvalidInput,
{
    let (hvcc_box, visual) = build_hvcc_box_and_visual(vps_list, sps_list, pps_list, config, 0)?;
    Ok(Hev1Box { visual, hvcc_box, unknown_boxes: Vec::new() })
}

/// Builds an `hvc1` sample entry (parameter sets only out of band:
/// `array_completeness` 1) from VPS / SPS / PPS NAL units.
pub fn build_hvc1_box(
    vps_list: &[Vec<u8>],
    sps_list: &[Vec<u8>],
    pps_list: &[Vec<u8>],
    config: &H265SampleEntryConfig,
) -> (r: Result<Hvc1Box, Error>)
    ensures
        r is Ok <==> hvcc_inputs_ok(byte_lists(vps_list@), byte_lists(sps_list@), byte_lists(pps_list@)),
        r matches Ok(b) ==> hvc1_box_of(
            byte_lists(vps_list@),
            byte_lists(sps_list@),
            byte_lists(pps_list@),
            config.length_size,
            b,
        ),
        r matches Err(e) ==> e.kind == ErrorKind::InvalidInput,
{
    let (hvcc_box, visual) = build_hvcc_box_and_visual(vps_list, sps_list, pps_list, config, 1)?;
    Ok(Hvc1Box { visual, hvcc_box, unknown_boxes: Vec::new() })
}

/// The units of `bodies` whose header names type `t`, in order.
pub open spec fn h265_bodies_of_type(bodies: Seq<Seq<u8>>, t: H265NalUnitType) -> Seq<Seq<u8>>
    decreases bodies.len(),
{
    if bodies.len() == 0 {
        Seq::empty()
    } else {
        let prev = h265_bodies_of_type(bodies.drop_last(), t);
        if h265_type_of(bodies.last()) == t {
            prev.push(bodies.last())
        } else {
            prev
        }
    }
}

proof fn lemma_collected_bodies(units: Seq<H265NalUnit>, bodies: Seq<Seq<u8>>, t: H265NalUnitType)
    requires
        h265_units_of(units, bodies),
    ensures
        h265_collected(units, t) == h265_bodies_of_type(bodies, t),
    decreases units.len(),
{
    if units.len() > 0 {
        assert(h265_units_of(units.drop_last(), bodies.drop_last()));
        lemma_collected_bodies(units.drop_last(), bodies.drop_last(), t);
        assert(units.last() == units[units.len() - 1]);
    }
}

/// The bytes of the units of type `t`, copied, in input order.
fn collect_parameter_sets(nals: &[H265NalUnit], nal_unit_type: H265NalUnitType) -> (r: Vec<Vec<u8>>)
    ensures
        byte_lists(r@) == h265_collected(nals@, nal_unit_type),
{
    let list = collect_nal_units(nals, nal_unit_type);
    let mut out: Vec<Vec<u8>> = Vec::new();
    let mut i: usize = 0;
    while i < list.len()
        invariant
            i <= list@.len(),
            out@.len() == i,
            forall|k: int| 0 <= k < i ==> #[trigger] out@[k]@ == list@[k]@,
        decreases list@.len() - i,
    {
        out.push(vstd::slice::slice_to_vec(list[i]));
        i += 1;
    }
    proof {
        assert(byte_lists(out@) =~= slice_views(list@));
    }
    out
}

/// The parameter set lists of an Annex B stream.
pub open spec fn h265_stream_params(b: Seq<Seq<u8>>) -> (Seq<Seq<u8>>, Seq<Seq<u8>>, Seq<Seq<u8>>) {
    (
        h265_bodies_of_type(b, H265NalUnitType::Vps),
        h265_bodies_of_type(b, H265NalUnitType::Sps),
        h265_bodies_of_type(b, H265NalUnitType::Pps),
    )
}

/// Builds an `hev1` sample entry from an Annex B stream: its VPSs, SPSs
/// and PPSs, in order, go to [`build_hev1_box`]; other units are ignored.
pub fn build_hev1_box_from_annexb(input: &[u8], config: &H265SampleEntryConfig) -> (r: Result<
    Hev1Box,
    Error,
>)
    ensures
        r is Ok <==> (scan_annexb_spec(input@) matches Some(b) && h265_headers_ok(b) && {
            let (v, s, p) = h265_stream_params(b);
            hvcc_inputs_ok(v, s, p)
        }),
        r matches Ok(x) ==> {
            let (v, s, p) = h265_stream_params(scan_annexb_spec(input@).unwrap());
            hev1_box_of(v, s, p, config.length_size, x)
        },
        r matches Err(e) ==> e.kind == ErrorKind::InvalidInput,
        !(scan_annexb_spec(input@) matches Some(b) && h265_headers_ok(b)) ==> (r matches Err(e)
            && e.reason == h265_annexb_reason(input@)),
{
    let nals = match parse_annexb_nal_units(input) {
        Ok(n) => n,
        Err(e) => return Err(e),
    };
    let vps = collect_parameter_sets(nals.as_slice(), H265NalUnitType::Vps);
    let sps = collect_parameter_sets(nals.as_slice(), H265NalUnitType::Sps);
    let pps = collect_parameter_sets(nals.as_slice(), H265NalUnitType::Pps);
    proof {
        let b = scan_annexb_spec(input@).unwrap();
        lemma_collected_bodies(nals@, b, H265NalUnitType::Vps);
        lemma_collected_bodies(nals@, b, H265NalUnitType::Sps);
        lemma_collected_bodies(nals@, b, H265NalUnitType::Pps);
    }
    build_hev1_box(vps.as_slice(), sps.as_slice(), pps.as_slice(), config)
}

/// Builds an `hvc1` sample entry from an Annex B stream: its VPSs, SPSs
/// and PPSs, in order, go to [`build_hvc1_box`]; other units are ignored.
pub fn build_hvc1_box_from_annexb(input: &[u8], config: &H265SampleEntryConfig) -> (r: Result<
    Hvc1Box,
    Error,
>)
    ensures
        r is Ok <==> (scan_annexb_spec(input@) matches Some(b) && h265_headers_ok(b) && {
            let (v, s, p) = h265_stream_params(b);
            hvcc_inputs_ok(v, s, p)
        }),
        r matches Ok(x) ==> {
            let (v, s, p) = h265_stream_params(scan_annexb_spec(input@).unwrap());
            hvc1_box_of(v, s, p, config.length_size, x)
        },
        r matches Err(e) ==> e.kind == ErrorKind::InvalidInput,
        !(scan_annexb_spec(input@) matches Some(b) && h265_headers_ok(b)) ==> (r matches Err(e)
            && e.reason == h265_annexb_reason(input@)),
{
    let nals = match parse_annexb_nal_units(input) {
        Ok(n) => n,
        Err(e) => return Err(e),
    };
    let vps = collect_parameter_sets(nals.as_slice(), H265NalUnitType::Vps);
    let sps = collect_parameter_sets(nals.as_slice(), H265NalUnitType::Sps);
    let pps = collect_parameter_sets(nals.as_slice(), H265NalUnitType::Pps);
    proof {
        let b = scan_annexb_spec(input@).unwrap();
        lemma_collected_bodies(nals@, b, H265NalUnitType::Vps);
        lemma_collected_bodies(nals@, b, H265NalUnitType::Sps);
        lemma_collected_bodies(nals@, b, H265NalUnitType::Pps);
    }
    build_hvc1_box(vps.as_slice(), sps.as_slice(), pps.as_slice(), config)
}

/// Building an `hev1` or `hvc1` entry from an Annex B stream is parsing the
/// stream ([`parse_annexb_nal_units`]), collecting its VPSs, SPSs and PPSs in
/// order ([`collect_nal_units`]) and building from those lists: when the
/// parse fails, so does the build from the stream (whose contract gives it
/// the parse's error); when it gives `nals`,
/// the stream's parameter lists are the collected ones, so both builders
/// succeed on the same streams and describe the same entries.
pub proof fn lemma_h265_from_annexb_two_step(
    input: Seq<u8>,
    nals: Seq<H265NalUnit>,
    ls: LengthSize,
    x0: Hev1Box,
    x1: Hvc1Box,
)
    ensures
        !(scan_annexb_spec(input) matches Some(b) && h265_headers_ok(b)) ==> !(scan_annexb_spec(
            input,
        ) matches Some(b) && h265_headers_ok(b) && {
            let (v, s, p) = h265_stream_params(b);
            hvcc_inputs_ok(v, s, p)
        }),
        (scan_annexb_spec(input) matches Some(b) && h265_headers_ok(b) && h265_units_of(nals, b))
            ==> {
            let (v, s, p) = h265_stream_params(scan_annexb_spec(input).unwrap());
            let cv = h265_collected(nals, H265NalUnitType::Vps);
            let cs = h265_collected(nals, H265NalUnitType::Sps);
            let cp = h265_collected(nals, H265NalUnitType::Pps);
            &&& hvcc_inputs_ok(v, s, p) <==> hvcc_inputs_ok(cv, cs, cp)
            &&& hev1_box_of(v, s, p, ls, x0) <==> hev1_box_of(cv, cs, cp, ls, x0)
            &&& hvc1_box_of(v, s, p, ls, x1) <==> hvc1_box_of(cv, cs, cp, ls, x1)
        },
{
    if scan_annexb_spec(input) is Some && h265_units_of(nals, scan_annexb_spec(input).unwrap()) {
        let b = scan_annexb_spec(input).unwrap();
        lemma_collected_bodies(nals, b, H265NalUnitType::Vps);
        lemma_collected_bodies(nals, b, H265NalUnitType::Sps);
        lemma_collected_bodies(nals, b, H265NalUnitType::Pps);
    }
}

} // verus!
