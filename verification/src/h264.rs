//! H.264 bitstream helpers: Annex B / length-prefixed NAL unit parsing, SPS
//! parsing, and `avc1` / `avcC` construction.
//!
//! NAL unit bytes handed out here include the one byte NAL header and exclude
//! start codes and length prefixes; they are EBSP (emulation prevention bytes
//! kept). Only [`parse_sps`] converts to RBSP.
use vstd::prelude::*;

use crate::bits::{bit_at, bit_len, bit_spec, bits_value, se_of, skip_golomb_spec, ue_spec, BitReader};
use crate::boxes::{
    copy_byte_lists, is_default_visual, make_visual, Avc1Box, AvccBox,
    DEFAULT_DATA_REFERENCE_INDEX,
};
use crate::error::{Error, ErrorKind};
use crate::nal::{
    scan_annexb_reason,
    annexb_to_length_prefixed_spec, length_prefixed_to_annexb_spec, rbsp_of,
    remove_emulation_prevention_bytes, scan_annexb_nals, scan_annexb_spec,
    scan_length_prefixed_nals, scan_length_prefixed_spec, slice_views,
};

pub use crate::nal::LengthSize;

verus! {

/// `nal_unit_type` (ITU-T H.264 Table 7-1); the main types are named, all
/// others pass through as [`H264NalUnitType::Other`].
#[derive(Debug, Clone, Copy, PartialEq, Eq, Hash, Structural)]
pub enum H264NalUnitType {
    /// Coded slice of a non-IDR picture (1)
    NonIdrSlice,
    /// Coded slice of an IDR picture (5)
    IdrSlice,
    /// Supplemental enhancement information (6)
    Sei,
    /// Sequence parameter set (7)
    Sps,
    /// Picture parameter set (8)
    Pps,
    /// Access unit delimiter (9)
    Aud,
    /// Any other value
    Other(u8),
}

/// The [`H264NalUnitType`] of the five bit value `v`.
pub open spec fn h264_nal_type_of(v: u8) -> H264NalUnitType {
    if v == 1 {
        H264NalUnitType::NonIdrSlice
    } else if v == 5 {
        H264NalUnitType::IdrSlice
    } else if v == 6 {
        H264NalUnitType::Sei
    } else if v == 7 {
        H264NalUnitType::Sps
    } else if v == 8 {
        H264NalUnitType::Pps
    } else if v == 9 {
        H264NalUnitType::Aud
    } else {
        H264NalUnitType::Other(v)
    }
}

impl H264NalUnitType {
    /// Maps the low five bits of the NAL header to the type.
    fn from_header_value(value: u8) -> (r: Self)
        ensures
            r == h264_nal_type_of(value),
    {
        match value {
            1 => Self::NonIdrSlice,
            5 => Self::IdrSlice,
            6 => Self::Sei,
            7 => Self::Sps,
            8 => Self::Pps,
            9 => Self::Aud,
            other => Self::Other(other),
        }
    }
}

/// Largest number of SPSs `avcC` can hold (5 bit count).
const MAX_SPS_COUNT: usize = 31;

/// Largest number of PPSs `avcC` can hold (8 bit count).
const MAX_PPS_COUNT: usize = 255;

/// One H.264 NAL unit, borrowing its bytes from the parsed input.
#[derive(Debug, Clone, Copy, PartialEq, Eq, Hash)]
pub struct H264NalUnit<'a> {
    /// `nal_unit_type` (low five bits of the NAL header)
    pub nal_unit_type: H264NalUnitType,
    /// The NAL unit: header byte and EBSP, no start code or length prefix.
    pub data: &'a [u8],
}

/// A NAL unit passes the header check: at least one byte, and
/// `forbidden_zero_bit` is 0.
pub open spec fn h264_header_ok(b: Seq<u8>) -> bool {
    b.len() >= 1 && b[0] < 0x80
}

/// The type named by the header byte of `b`.
pub open spec fn h264_type_of(b: Seq<u8>) -> H264NalUnitType {
    h264_nal_type_of((b[0] % 32) as u8)
}

/// Every unit passes the header check.
pub open spec fn h264_headers_ok(bodies: Seq<Seq<u8>>) -> bool {
    forall|i: int| 0 <= i < bodies.len() ==> h264_header_ok(#[trigger] bodies[i])
}

/// `units` are `bodies` with their header types.
pub open spec fn h264_units_of(units: Seq<H264NalUnit>, bodies: Seq<Seq<u8>>) -> bool {
    &&& units.len() == bodies.len()
    &&& forall|i: int|
        0 <= i < units.len() ==> (#[trigger] units[i]).data@ == bodies[i]
            && units[i].nal_unit_type == h264_type_of(bodies[i])
}

/// The reason the header check gives for rejecting `b`.
pub open spec fn h264_header_reason(b: Seq<u8>) -> &'static str {
    if b.len() < 1 {
        "NAL unit is shorter than 1 byte"
    } else {
        "forbidden_zero_bit must be 0"
    }
}

/// The reason the header checks of `bodies`, made in order, give: that of
/// the first unit that fails its check.
pub open spec fn h264_headers_reason(bodies: Seq<Seq<u8>>) -> &'static str
    decreases bodies.len(),
{
    if bodies.len() == 0 {
        ""
    } else if !h264_header_ok(bodies[0]) {
        h264_header_reason(bodies[0])
    } else {
        h264_headers_reason(bodies.drop_first())
    }
}

/// The reason [`parse_annexb_nal_units`] gives for rejecting `s`: that of
/// the Annex B scan, or else that of the header checks of its units.
pub open spec fn h264_annexb_reason(s: Seq<u8>) -> &'static str {
    match scan_annexb_spec(s) {
        None => scan_annexb_reason(s),
        Some(b) => h264_headers_reason(b),
    }
}

/// Checks the NAL header and returns its type.
fn validate_h264_nal_header(data: &[u8]) -> (r: Result<H264NalUnitType, Error>)
    ensures
        r is Ok <==> h264_header_ok(data@),
        r matches Ok(t) ==> t == h264_type_of(data@),
        r matches Err(e) ==> e.kind == ErrorKind::InvalidInput && e.reason == h264_header_reason(
            data@,
        ),
{
    if data.len() == 0 {
        return Err(Error::invalid_input("NAL unit is shorter than 1 byte"));
    }
    let header = data[0];
    proof {
        assert(header & 0x80 != 0 <==> header >= 0x80) by (bit_vector);
        assert(header & 0x1f == header % 32) by (bit_vector);
    }
    if header & 0b1000_0000 != 0 {
        return Err(Error::invalid_input("forbidden_zero_bit must be 0"));
    }
    Ok(H264NalUnitType::from_header_value(header & 0b0001_1111))
}

/// Makes an [`H264NalUnit`] of a scanned NAL unit body.
fn to_h264_nal_unit(body: &[u8]) -> (r: Result<H264NalUnit<'_>, Error>)
    ensures
        r is Ok <==> h264_header_ok(body@),
        r matches Ok(u) ==> u.data@ == body@ && u.nal_unit_type == h264_type_of(body@),
        r matches Err(e) ==> e.kind == ErrorKind::InvalidInput && e.reason == h264_header_reason(
            body@,
        ),
{
    let nal_unit_type = validate_h264_nal_header(body)?;
    Ok(H264NalUnit { nal_unit_type, data: body })
}

/// Checks the headers of scanned bodies, in order.
fn to_h264_nal_units<'a>(bodies: &Vec<&'a [u8]>) -> (r: Result<Vec<H264NalUnit<'a>>, Error>)
    ensures
        r is Ok <==> h264_headers_ok(slice_views(bodies@)),
        r matches Ok(v) ==> h264_units_of(v@, slice_views(bodies@)),
        r matches Err(e) ==> e.kind == ErrorKind::InvalidInput && e.reason == h264_headers_reason(
            slice_views(bodies@),
        ),
{
    let ghost views = slice_views(bodies@);
    proof {
        assert(views.skip(0) =~= views);
    }
    let mut out: Vec<H264NalUnit<'a>> = Vec::new();
    let mut i: usize = 0;
    while i < bodies.len()
        invariant
            views == slice_views(bodies@),
            i <= bodies@.len(),
            out@.len() == i,
            forall|k: int| 0 <= k < i ==> h264_header_ok(#[trigger] views[k]),
            forall|k: int|
                0 <= k < i ==> (#[trigger] out@[k]).data@ == views[k] && out@[k].nal_unit_type
                    == h264_type_of(views[k]),
            h264_headers_reason(views) == h264_headers_reason(views.skip(i as int)),
        decreases bodies@.len() - i,
    {
        proof {
            assert(views.skip(i as int)[0] == views[i as int]);
            assert(views.skip(i as int).drop_first() =~= views.skip(i + 1));
        }
        let unit = match to_h264_nal_unit(bodies[i]) {
            Ok(u) => u,
            Err(e) => {
                proof {
                    assert(!h264_header_ok(views[i as int]));
                }
                return Err(e);
            },
        };
        out.push(unit);
        i += 1;
    }
    Ok(out)
}

/// Parses an Annex B NAL unit stream (3 or 4 byte start codes).
///
/// Fails where the Annex B scan fails (no start code in non-empty input,
/// non-zero bytes before the first start code, an empty unit) and on units
/// without a valid header; empty input gives no units.
pub fn parse_annexb_nal_units(input: &[u8]) -> (r: Result<Vec<H264NalUnit<'_>>, Error>)
    ensures
        r is Ok <==> (scan_annexb_spec(input@) matches Some(b) && h264_headers_ok(b)),
        r matches Ok(v) ==> h264_units_of(v@, scan_annexb_spec(input@).unwrap()),
        r matches Err(e) ==> e.kind == ErrorKind::InvalidInput && e.reason == h264_annexb_reason(
            input@,
        ),
{
    let bodies = match scan_annexb_nals(input) {
        Ok(b) => b,
        Err(e) => return Err(e),
    };
    to_h264_nal_units(&bodies)
}

/// Parses a length-prefixed NAL unit stream (ISO/IEC 14496-15).
///
/// Fails on a truncated length field or unit, a zero length, and units
/// without a valid header; empty input gives no units.
pub fn parse_length_prefixed_nal_units(input: &[u8], length_size: LengthSize) -> (r: Result<
    Vec<H264NalUnit<'_>>,
    Error,
>)
    ensures
        r is Ok <==> (scan_length_prefixed_spec(input@, length_size) matches Some(b)
            && h264_headers_ok(b)),
        r matches Ok(v) ==> h264_units_of(
            v@,
            scan_length_prefixed_spec(input@, length_size).unwrap(),
        ),
        r matches Err(e) ==> e.kind == ErrorKind::InvalidInput,
{
    let bodies = scan_length_prefixed_nals(input, length_size)?;
    to_h264_nal_units(&bodies)
}

/// Converts Annex B to the length-prefixed form; NAL headers are not checked.
pub fn annexb_to_length_prefixed(input: &[u8], length_size: LengthSize) -> (r: Result<
    Vec<u8>,
    Error,
>)
    ensures
        r is Ok <==> annexb_to_length_prefixed_spec(input@, length_size) is Some,
        r matches Ok(v) ==> annexb_to_length_prefixed_spec(input@, length_size) == Some(v@),
        r matches Err(e) ==> e.kind == ErrorKind::InvalidInput,
{
    crate::nal::annexb_to_length_prefixed(input, length_size)
}

/// Converts the length-prefixed form to Annex B with 4 byte start codes;
/// NAL headers are not checked.
pub fn length_prefixed_to_annexb(input: &[u8], length_size: LengthSize) -> (r: Result<
    Vec<u8>,
    Error,
>)
    ensures
        r is Ok <==> length_prefixed_to_annexb_spec(input@, length_size) is Some,
        r matches Ok(v) ==> length_prefixed_to_annexb_spec(input@, length_size) == Some(v@),
        r matches Err(e) ==> e.kind == ErrorKind::InvalidInput,
{
    crate::nal::length_prefixed_to_annexb(input, length_size)
}

/// The bytes of the units of type `t`, in order.
pub open spec fn h264_collected(nals: Seq<H264NalUnit>, t: H264NalUnitType) -> Seq<Seq<u8>>
    decreases nals.len(),
{
    if nals.len() == 0 {
        Seq::empty()
    } else {
        let prev = h264_collected(nals.drop_last(), t);
        if nals.last().nal_unit_type == t {
            prev.push(nals.last().data@)
        } else {
            prev
        }
    }
}

/// The bytes of the NAL units of type `nal_unit_type`, in input order.
pub fn collect_nal_units<'a>(nals: &[H264NalUnit<'a>], nal_unit_type: H264NalUnitType) -> (r: Vec<
    &'a [u8],
>)
    ensures
        slice_views(r@) == h264_collected(nals@, nal_unit_type),
{
    let mut out: Vec<&'a [u8]> = Vec::new();
    let mut i: usize = 0;
    while i < nals.len()
        invariant
            i <= nals@.len(),
            slice_views(out@) == h264_collected(nals@.take(i as int), nal_unit_type),
        decreases nals@.len() - i,
    {
        let nal = nals[i];
        proof {
            assert(nals@.take(i + 1).drop_last() =~= nals@.take(i as int));
        }
        if nal.nal_unit_type == nal_unit_type {
            let ghost before = slice_views(out@);
            out.push(nal.data);
            proof {
                assert(slice_views(out@) =~= before.push(nal.data@));
            }
        }
        i += 1;
    }
    proof {
        assert(nals@.take(i as int) =~= nals@);
    }
    out
}

} // verus!

verus! {

/// Parsed SPS (ITU-T H.264 7.3.2.1.1 / 7.4.2.1.1).
#[derive(Debug, Clone, Copy, PartialEq, Eq, Hash, Structural)]
pub struct H264Sps {
    /// `profile_idc`
    pub profile_idc: u8,
    /// The constraint flags byte (`constraint_set0_flag` .. `reserved_zero_2bits`).
    pub constraint_set_flags: u8,
    /// `level_idc`
    pub level_idc: u8,
    /// `chroma_format_idc` (1 where the profile does not carry it)
    pub chroma_format_idc: u8,
    /// `bit_depth_luma_minus8` (0 where the profile does not carry it)
    pub bit_depth_luma_minus8: u8,
    /// `bit_depth_chroma_minus8` (0 where the profile does not carry it)
    pub bit_depth_chroma_minus8: u8,
    /// Width after cropping, in pixels.
    pub width: u16,
    /// Frame height after cropping, in pixels.
    pub height: u16,
}

/// `profile_idc` values whose SPS carries `chroma_format_idc` and the fields after it.
pub open spec fn h264_has_extended_syntax(profile: nat) -> bool {
    profile == 100 || profile == 110 || profile == 122 || profile == 244 || profile == 44
        || profile == 83 || profile == 86 || profile == 118 || profile == 128 || profile == 138
        || profile == 139 || profile == 134 || profile == 135
}

/// Remainder with the sign of the dividend (Rust's `%`).
pub open spec fn trunc_rem(a: int, m: int) -> int {
    if a >= 0 {
        a % m
    } else {
        -((-a) % m)
    }
}

/// Position after the last `remaining` entries of a `scaling_list`, given
/// `lastScale` and `nextScale`.
pub open spec fn scaling_list_spec(r: Seq<u8>, p: int, remaining: nat, last: int, next: int) -> Option<int>
    decreases remaining,
{
    if remaining == 0 {
        Some(p)
    } else if next != 0 {
        match ue_spec(r, p) {
            None => None,
            Some((code, q)) => {
                let n2 = trunc_rem(last + se_of(code) + 256, 256);
                scaling_list_spec(r, q, (remaining - 1) as nat, if n2 == 0 { last } else { n2 }, n2)
            },
        }
    } else {
        scaling_list_spec(r, p, (remaining - 1) as nat, last, next)
    }
}

/// Position after the scaling lists `i .. count` of an SPS, each behind its
/// present flag (lists 0..6 have 16 entries, the others 64).
pub open spec fn scaling_lists_spec(r: Seq<u8>, p: int, i: nat, count: nat) -> Option<int>
    decreases count - i,
{
    if i >= count {
        Some(p)
    } else {
        match bit_spec(r, p) {
            None => None,
            Some((f, q)) => if f != 0 {
                match scaling_list_spec(r, q, if i < 6 { 16 } else { 64 }, 8, 8) {
                    None => None,
                    Some(q2) => scaling_lists_spec(r, q2, i + 1, count),
                }
            } else {
                scaling_lists_spec(r, q, i + 1, count)
            },
        }
    }
}

/// The optional part of an SPS from `chroma_format_idc`:
/// `(chroma_format_idc, separate_colour_plane_flag, bit_depth_luma_minus8,
/// bit_depth_chroma_minus8, position after)`, with the inferred values
/// for profiles without it; `None` where it ends early or a value is out of range.
pub open spec fn h264_sps_ext_spec(r: Seq<u8>, p: int, profile: nat) -> Option<(nat, nat, nat, nat, int)> {
    if !h264_has_extended_syntax(profile) {
        Some((1, 0, 0, 0, p))
    } else {
        match ue_spec(r, p) {
            None => None,
            Some((chroma, p1)) => if chroma > 3 {
                None
            } else {
                match (if chroma == 3 {
                    match bit_spec(r, p1) {
                        None => None,
                        Some((b, q)) => Some((b as nat, q)),
                    }
                } else {
                    Some((0nat, p1))
                }) {
                    None => None,
                    Some((sep, p2)) => match ue_spec(r, p2) {
                        None => None,
                        Some((bdl, p3)) => if bdl > 6 {
                            None
                        } else {
                            match ue_spec(r, p3) {
                                None => None,
                                Some((bdc, p4)) => if bdc > 6 {
                                    None
                                } else {
                                    match bit_spec(r, p4) {
                                        None => None,
                                        Some((_, p5)) => match bit_spec(r, p5) {
                                            None => None,
                                            Some((m, p6)) => if m != 0 {
                                                match scaling_lists_spec(
                                                    r,
                                                    p6,
                                                    0,
                                                    if chroma != 3 { 8 } else { 12 },
                                                ) {
                                                    None => None,
                                                    Some(p7) => Some((chroma, sep, bdl, bdc, p7)),
                                                }
                                            } else {
                                                Some((chroma, sep, bdl, bdc, p6))
                                            },
                                        },
                                    }
                                },
                            }
                        },
                    },
                }
            },
        }
    }
}

/// Position after `log2_max_frame_num_minus4` and the picture order count
/// syntax; `None` where it ends early or `pic_order_cnt_type > 2`.
pub open spec fn h264_poc_spec(r: Seq<u8>, p: int) -> Option<int> {
    match ue_spec(r, p) {
        None => None,
        Some((_, p1)) => match ue_spec(r, p1) {
            None => None,
            Some((t, p2)) => if t > 2 {
                None
            } else if t == 0 {
                match ue_spec(r, p2) {
                    None => None,
                    Some((_, p3)) => Some(p3),
                }
            } else if t == 1 {
                match bit_spec(r, p2) {
                    None => None,
                    Some((_, p3)) => match ue_spec(r, p3) {
                        None => None,
                        Some((_, p4)) => match ue_spec(r, p4) {
                            None => None,
                            Some((_, p5)) => match ue_spec(r, p5) {
                                None => None,
                                Some((n, p6)) => skip_golomb_spec(r, p6, n),
                            },
                        },
                    },
                }
            } else {
                Some(p2)
            },
        },
    }
}

/// Crop offsets `(left, right, top, bottom)` of an SPS.
pub type H264Crop = (nat, nat, nat, nat);

/// The frame size syntax from `max_num_ref_frames` through the cropping
/// offsets: `(pic_width_in_mbs_minus1, pic_height_in_map_units_minus1,
/// frame_mbs_only_flag, crop offsets when frame_cropping_flag is set)`.
pub open spec fn h264_frame_spec(r: Seq<u8>, p: int) -> Option<(nat, nat, nat, Option<H264Crop>)> {
    match ue_spec(r, p) {
        None => None,
        Some((_, p1)) => match bit_spec(r, p1) {
            None => None,
            Some((_, p2)) => match ue_spec(r, p2) {
                None => None,
                Some((w, p3)) => match ue_spec(r, p3) {
                    None => None,
                    Some((h, p4)) => match bit_spec(r, p4) {
                        None => None,
                        Some((fmo, p5)) => match (if fmo == 0 {
                            bit_spec(r, p5)
                        } else {
                            Some((0u8, p5))
                        }) {
                            None => None,
                            Some((_, p6)) => match bit_spec(r, p6) {
                                None => None,
                                Some((_, p7)) => match bit_spec(r, p7) {
                                    None => None,
                                    Some((crop, p8)) => if crop != 0 {
                                        match ue_spec(r, p8) {
                                            None => None,
                                            Some((cl, q1)) => match ue_spec(r, q1) {
                                                None => None,
                                                Some((cr, q2)) => match ue_spec(r, q2) {
                                                    None => None,
                                                    Some((ct, q3)) => match ue_spec(r, q3) {
                                                        None => None,
                                                        Some((cb, _)) => Some(
                                                            (w, h, fmo as nat, Some((cl, cr, ct, cb))),
                                                        ),
                                                    },
                                                },
                                            },
                                        }
                                    } else {
                                        Some((w, h, fmo as nat, None))
                                    },
                                },
                            },
                        },
                    },
                },
            },
        },
    }
}

/// `(CropUnitX, CropUnitY)` (7.4.2.1.1, Table 6-1).
pub open spec fn h264_crop_units(chroma: nat, sep: nat, fmo: nat) -> (nat, nat) {
    if sep == 1 || chroma == 0 {
        (1, (2 - fmo) as nat)
    } else if chroma == 1 {
        (2, (2 * (2 - fmo)) as nat)
    } else if chroma == 2 {
        (2, (2 - fmo) as nat)
    } else {
        (1, (2 - fmo) as nat)
    }
}

/// `size` minus `unit * (a + b)`, or `None` when the crop exceeds it.
pub open spec fn cropped(size: nat, unit: nat, a: nat, b: nat) -> Option<nat> {
    if unit * (a + b) > size {
        None
    } else {
        Some((size - unit * (a + b)) as nat)
    }
}

/// Width and height after cropping, or `None` when the crop exceeds the
/// coded size or a side is 0 or above `u16::MAX`.
pub open spec fn h264_dims_spec(
    chroma: nat,
    sep: nat,
    fmo: nat,
    w: nat,
    h: nat,
    crop: Option<H264Crop>,
) -> Option<(u16, u16)> {
    let (ux, uy) = h264_crop_units(chroma, sep, fmo);
    let (cl, cr, ct, cb) = match crop {
        Some(c) => c,
        None => (0nat, 0nat, 0nat, 0nat),
    };
    match (cropped((w + 1) * 16, ux, cl, cr), cropped(((2 - fmo) * (h + 1) * 16) as nat, uy, ct, cb)) {
        (Some(cw), Some(ch)) => if cw == 0 || ch == 0 || cw > 0xffff || ch > 0xffff {
            None
        } else {
            Some((cw as u16, ch as u16))
        },
        _ => None,
    }
}

/// The SPS that the RBSP `r` (after the NAL header) describes.
pub open spec fn h264_sps_spec(r: Seq<u8>) -> Option<H264Sps> {
    if bit_len(r) < 24 {
        None
    } else {
        let profile = bits_value(r, 0, 8);
        let flags = bits_value(r, 8, 8);
        let level = bits_value(r, 16, 8);
        match ue_spec(r, 24) {
            None => None,
            Some((_, p1)) => match h264_sps_ext_spec(r, p1, profile) {
                None => None,
                Some((chroma, sep, bdl, bdc, p2)) => match h264_poc_spec(r, p2) {
                    None => None,
                    Some(p3) => match h264_frame_spec(r, p3) {
                        None => None,
                        Some((w, h, fmo, crop)) => match h264_dims_spec(chroma, sep, fmo, w, h, crop) {
                            None => None,
                            Some((cw, ch)) => Some(
                                H264Sps {
                                    profile_idc: profile as u8,
                                    constraint_set_flags: flags as u8,
                                    level_idc: level as u8,
                                    chroma_format_idc: chroma as u8,
                                    bit_depth_luma_minus8: bdl as u8,
                                    bit_depth_chroma_minus8: bdc as u8,
                                    width: cw,
                                    height: ch,
                                },
                            ),
                        },
                    },
                },
            },
        }
    }
}

/// The SPS that the NAL unit `nal` (header byte and EBSP) describes: `None`
/// unless its header is valid, of type 7, and its RBSP parses.
pub open spec fn h264_parse_sps_spec(nal: Seq<u8>) -> Option<H264Sps> {
    if !h264_header_ok(nal) || h264_type_of(nal) != H264NalUnitType::Sps {
        None
    } else {
        h264_sps_spec(rbsp_of(nal.subrange(1, nal.len() as int)))
    }
}

proof fn lemma_h264_frame_fmo(r: Seq<u8>, p: int)
    ensures
        h264_frame_spec(r, p) matches Some((_, _, fmo, _)) ==> fmo <= 1,
{
    assert forall|q: int| #[trigger] bit_at(r, q) <= 1 by {
        crate::bits::lemma_bit_at_is_bit(r, q);
    }
}

proof fn lemma_h264_ext_sep(r: Seq<u8>, p: int, profile: nat)
    ensures
        h264_sps_ext_spec(r, p, profile) matches Some((_, sep, _, _, _)) ==> sep <= 1,
{
    assert forall|q: int| #[trigger] bit_at(r, q) <= 1 by {
        crate::bits::lemma_bit_at_is_bit(r, q);
    }
}

proof fn lemma_h264_dims_table(chroma: nat, sep: nat, fmo: nat, w: nat, h: nat, crop: Option<H264Crop>)
    requires
        fmo <= 1,
        sep <= 1,
        h264_dims_spec(chroma, sep, fmo, w, h, crop) is Some,
    ensures
        ({
            let (cl, cr, ct, cb) = match crop {
                Some(c) => c,
                None => (0nat, 0nat, 0nat, 0nat),
            };
            let sub_w: int = if sep == 0 && (chroma == 1 || chroma == 2) { 2 } else { 1 };
            let sub_h: int = if sep == 0 && chroma == 1 { 2 } else { 1 };
            let (cw, ch) = h264_dims_spec(chroma, sep, fmo, w, h, crop).unwrap();
            &&& cw == (w + 1) * 16 - sub_w * (cl + cr)
            &&& ch == (2 - fmo) * (h + 1) * 16 - (sub_h * (2 - fmo)) * (ct + cb)
        }),
{
    let (ux, uy) = h264_crop_units(chroma, sep, fmo);
    if fmo == 0 {
        if sep == 0 && chroma == 1 {
            assert(ux == 2 && uy == 4);
        } else if sep == 0 && chroma == 2 {
            assert(ux == 2 && uy == 2);
        } else {
            assert(ux == 1 && uy == 2);
        }
    } else {
        if sep == 0 && chroma == 1 {
            assert(ux == 2 && uy == 2);
        } else if sep == 0 && chroma == 2 {
            assert(ux == 2 && uy == 1);
        } else {
            assert(ux == 1 && uy == 1);
        }
    }
}

/// The width and height of a parsed SPS are the coded size,
/// `(pic_width_in_mbs_minus1 + 1) * 16` by `(2 - frame_mbs_only_flag) *
/// (pic_height_in_map_units_minus1 + 1) * 16`, less the cropping offsets in
/// crop units (7.4.2.1.1 with Table 6-1): horizontally `SubWidthC` (2 for
/// 4:2:0 and 4:2:2, 1 for monochrome, 4:4:4 or separate colour planes),
/// vertically `SubHeightC` (2 for 4:2:0 only, else 1) times
/// `2 - frame_mbs_only_flag`.
pub proof fn lemma_h264_cropped_size(r: Seq<u8>)
    requires
        h264_sps_spec(r) is Some,
    ensures
        ({
            let profile = bits_value(r, 0, 8);
            let p1 = ue_spec(r, 24).unwrap().1;
            let (chroma, sep, _, _, p2) = h264_sps_ext_spec(r, p1, profile).unwrap();
            let p3 = h264_poc_spec(r, p2).unwrap();
            let (w, h, fmo, crop) = h264_frame_spec(r, p3).unwrap();
            let (cl, cr, ct, cb) = match crop {
                Some(c) => c,
                None => (0nat, 0nat, 0nat, 0nat),
            };
            let sub_w: int = if sep == 0 && (chroma == 1 || chroma == 2) { 2 } else { 1 };
            let sub_h: int = if sep == 0 && chroma == 1 { 2 } else { 1 };
            let sps = h264_sps_spec(r).unwrap();
            &&& sps.chroma_format_idc == chroma
            &&& fmo <= 1
            &&& sps.width == (w + 1) * 16 - sub_w * (cl + cr)
            &&& sps.height == (2 - fmo) * (h + 1) * 16 - (sub_h * (2 - fmo)) * (ct + cb)
        }),
{
    let profile = bits_value(r, 0, 8);
    let p1 = ue_spec(r, 24).unwrap().1;
    let (chroma, sep, _, _, p2) = h264_sps_ext_spec(r, p1, profile).unwrap();
    let p3 = h264_poc_spec(r, p2).unwrap();
    let (w, h, fmo, crop) = h264_frame_spec(r, p3).unwrap();
    lemma_h264_frame_fmo(r, p3);
    lemma_h264_ext_sep(r, p1, profile);
    lemma_h264_dims_table(chroma, sep, fmo, w, h, crop);
}

/// A parsed SPS holds `chroma_format_idc` 0..=3 and bit depths 0..=6 above 8.
pub proof fn lemma_h264_sps_bounds(nal: Seq<u8>)
    ensures
        h264_parse_sps_spec(nal) matches Some(s) ==> s.chroma_format_idc <= 3 && s.bit_depth_luma_minus8 <= 6
            && s.bit_depth_chroma_minus8 <= 6,
{
    if h264_parse_sps_spec(nal) is Some {
        let r = rbsp_of(nal.subrange(1, nal.len() as int));
        let profile = bits_value(r, 0, 8);
        let p1 = ue_spec(r, 24).unwrap().1;
        assert(h264_sps_ext_spec(r, p1, profile) is Some);
        let (c, _, bdl, bdc, _) = h264_sps_ext_spec(r, p1, profile).unwrap();
        assert(c <= 3 && bdl <= 6 && bdc <= 6);
    }
}

} // verus!

verus! {

/// Skips one `scaling_list` of `size_of_scaling_list` entries, following
/// `nextScale` as the syntax does.
fn skip_scaling_list(reader: &mut BitReader, size_of_scaling_list: u32) -> (r: Result<(), Error>)
    requires
        old(reader).wf(),
    ensures
        final(reader).wf(),
        final(reader).data() == old(reader).data(),
        r is Ok <==> scaling_list_spec(
            old(reader).data(),
            old(reader).pos(),
            size_of_scaling_list as nat,
            8,
            8,
        ) is Some,
        r is Ok ==> scaling_list_spec(
            old(reader).data(),
            old(reader).pos(),
            size_of_scaling_list as nat,
            8,
            8,
        ) == Some(final(reader).pos()),
        r matches Err(e) ==> e.kind == ErrorKind::InvalidInput,
{
    let ghost s = reader.data();
    let ghost target = scaling_list_spec(s, reader.pos(), size_of_scaling_list as nat, 8, 8);
    let mut last_scale: i64 = 8;
    let mut next_scale: i64 = 8;
    let mut k: u32 = 0;
    while k < size_of_scaling_list
        invariant
            reader.wf(),
            reader.data() == s,
            s == old(reader).data(),
            target == scaling_list_spec(
                s,
                old(reader).pos(),
                size_of_scaling_list as nat,
                8,
                8,
            ),
            k <= size_of_scaling_list,
            -256 < last_scale < 256,
            -256 < next_scale < 256,
            target == scaling_list_spec(
                s,
                reader.pos(),
                (size_of_scaling_list - k) as nat,
                last_scale as int,
                next_scale as int,
            ),
        decreases size_of_scaling_list - k,
    {
        if next_scale != 0 {
            let delta_scale = reader.read_se()?;
            let sum = last_scale + delta_scale + 256;
            next_scale = if sum >= 0 {
                ((sum as u64) % 256) as i64
            } else {
                -((((-sum) as u64) % 256) as i64)
            };
        }
        last_scale = if next_scale == 0 {
            last_scale
        } else {
            next_scale
        };
        k += 1;
    }
    Ok(())
}

/// Reads `chroma_format_idc` through the scaling lists where `profile`
/// carries them.
fn read_sps_ext(reader: &mut BitReader, profile: u8) -> (r: Result<(u32, u8, u32, u32), Error>)
    requires
        old(reader).wf(),
    ensures
        final(reader).wf(),
        final(reader).data() == old(reader).data(),
        r is Ok <==> h264_sps_ext_spec(old(reader).data(), old(reader).pos(), profile as nat) is Some,
        r matches Ok((c, s, l, h)) ==> h264_sps_ext_spec(
            old(reader).data(),
            old(reader).pos(),
            profile as nat,
        ) == Some((c as nat, s as nat, l as nat, h as nat, final(reader).pos())),
        r matches Err(e) ==> e.kind == ErrorKind::InvalidInput,
{
    let extended = profile == 100 || profile == 110 || profile == 122 || profile == 244 || profile
        == 44 || profile == 83 || profile == 86 || profile == 118 || profile == 128 || profile
        == 138 || profile == 139 || profile == 134 || profile == 135;
    if !extended {
        return Ok((1, 0, 0, 0));
    }
    let chroma_format_idc = reader.read_ue()?;
    if chroma_format_idc > 3 {
        return Err(Error::invalid_input("chroma_format_idc must be 0..=3"));
    }
    let separate_colour_plane_flag = if chroma_format_idc == 3 {
        let b = reader.read_bit()?;
        proof {
            crate::bits::lemma_bit_at_is_bit(old(reader).data(), reader.pos() - 1);
        }
        b
    } else {
        0
    };
    let bit_depth_luma_minus8 = reader.read_ue()?;
    if bit_depth_luma_minus8 > 6 {
        return Err(Error::invalid_input("bit_depth_luma_minus8 must be 0..=6"));
    }
    let bit_depth_chroma_minus8 = reader.read_ue()?;
    if bit_depth_chroma_minus8 > 6 {
        return Err(Error::invalid_input("bit_depth_chroma_minus8 must be 0..=6"));
    }
    let _qpprime_y_zero_transform_bypass_flag = reader.read_bit()?;
    let seq_scaling_matrix_present_flag = reader.read_bit()?;
    if seq_scaling_matrix_present_flag != 0 {
        let list_count: u32 = if chroma_format_idc != 3 {
            8
        } else {
            12
        };
        let ghost s = reader.data();
        let ghost target = scaling_lists_spec(s, reader.pos(), 0, list_count as nat);
        proof {
            assert(h264_sps_ext_spec(s, old(reader).pos(), profile as nat) == match target {
                None => None,
                Some(p7) => Some(
                    (
                        chroma_format_idc as nat,
                        separate_colour_plane_flag as nat,
                        bit_depth_luma_minus8 as nat,
                        bit_depth_chroma_minus8 as nat,
                        p7,
                    ),
                ),
            });
        }
        let mut i: u32 = 0;
        while i < list_count
            invariant
                reader.wf(),
                reader.data() == s,
                s == old(reader).data(),
                i <= list_count,
                target == scaling_lists_spec(s, reader.pos(), i as nat, list_count as nat),
                h264_sps_ext_spec(s, old(reader).pos(), profile as nat) == match target {
                    None => None,
                    Some(p7) => Some(
                        (
                            chroma_format_idc as nat,
                            separate_colour_plane_flag as nat,
                            bit_depth_luma_minus8 as nat,
                            bit_depth_chroma_minus8 as nat,
                            p7,
                        ),
                    ),
                },
            decreases list_count - i,
        {
            let ghost p = reader.pos();
            let present = reader.read_bit()?;
            if present != 0 {
                let size: u32 = if i < 6 {
                    16
                } else {
                    64
                };
                skip_scaling_list(reader, size)?;
            }
            proof {
                assert(scaling_lists_spec(s, p, i as nat, list_count as nat) == scaling_lists_spec(
                    s,
                    reader.pos(),
                    (i + 1) as nat,
                    list_count as nat,
                ));
            }
            i += 1;
        }
    }
    Ok((chroma_format_idc, separate_colour_plane_flag, bit_depth_luma_minus8, bit_depth_chroma_minus8))
}

/// Skips `log2_max_frame_num_minus4` and the picture order count syntax.
fn skip_poc(reader: &mut BitReader) -> (r: Result<(), Error>)
    requires
        old(reader).wf(),
    ensures
        final(reader).wf(),
        final(reader).data() == old(reader).data(),
        r is Ok <==> h264_poc_spec(old(reader).data(), old(reader).pos()) is Some,
        r is Ok ==> h264_poc_spec(old(reader).data(), old(reader).pos()) == Some(final(reader).pos()),
        r matches Err(e) ==> e.kind == ErrorKind::InvalidInput,
{
    let _log2_max_frame_num_minus4 = reader.read_ue()?;
    let pic_order_cnt_type = reader.read_ue()?;
    if pic_order_cnt_type > 2 {
        return Err(Error::invalid_input("pic_order_cnt_type must be 0..=2"));
    }
    if pic_order_cnt_type == 0 {
        let _log2_max_pic_order_cnt_lsb_minus4 = reader.read_ue()?;
    } else if pic_order_cnt_type == 1 {
        let _delta_pic_order_always_zero_flag = reader.read_bit()?;
        let _offset_for_non_ref_pic = reader.read_se()?;
        let _offset_for_top_to_bottom_field = reader.read_se()?;
        let num_ref_frames_in_pic_order_cnt_cycle = reader.read_ue()?;
        reader.skip_golomb(num_ref_frames_in_pic_order_cnt_cycle)?;
    }
    Ok(())
}

/// Reads the frame size syntax from `max_num_ref_frames` through the
/// cropping offsets.
fn read_frame(reader: &mut BitReader) -> (r: Result<(u32, u32, u8, Option<(u32, u32, u32, u32)>), Error>)
    requires
        old(reader).wf(),
    ensures
        final(reader).wf(),
        final(reader).data() == old(reader).data(),
        r is Ok <==> h264_frame_spec(old(reader).data(), old(reader).pos()) is Some,
        r matches Ok((w, h, fmo, crop)) ==> h264_frame_spec(old(reader).data(), old(reader).pos())
            == Some(
            (
                w as nat,
                h as nat,
                fmo as nat,
                match crop {
                    Some((a, b, c, d)) => Some((a as nat, b as nat, c as nat, d as nat)),
                    None => None,
                },
            ),
        ),
        r matches Ok((_, _, fmo, _)) ==> fmo <= 1,
        r matches Err(e) ==> e.kind == ErrorKind::InvalidInput,
{
    let _max_num_ref_frames = reader.read_ue()?;
    let _gaps_in_frame_num_value_allowed_flag = reader.read_bit()?;
    let pic_width_in_mbs_minus1 = reader.read_ue()?;
    let pic_height_in_map_units_minus1 = reader.read_ue()?;
    let ghost p = reader.pos();
    let frame_mbs_only_flag = reader.read_bit()?;
    proof {
        crate::bits::lemma_bit_at_is_bit(old(reader).data(), p);
    }
    if frame_mbs_only_flag == 0 {
        let _mb_adaptive_frame_field_flag = reader.read_bit()?;
    }
    let _direct_8x8_inference_flag = reader.read_bit()?;
    let frame_cropping_flag = reader.read_bit()?;
    let crop = if frame_cropping_flag != 0 {
        let l = reader.read_ue()?;
        let r = reader.read_ue()?;
        let t = reader.read_ue()?;
        let b = reader.read_ue()?;
        Some((l, r, t, b))
    } else {
        None
    };
    Ok((pic_width_in_mbs_minus1, pic_height_in_map_units_minus1, frame_mbs_only_flag, crop))
}

/// Applies the cropping offsets to the coded size.
#[verifier::spinoff_prover]
#[verifier::rlimit(40)]
fn cropped_size(
    chroma_format_idc: u32,
    separate_colour_plane_flag: u8,
    frame_mbs_only_flag: u8,
    w: u32,
    h: u32,
    crop: Option<(u32, u32, u32, u32)>,
) -> (r: Result<(u16, u16), Error>)
    requires
        frame_mbs_only_flag <= 1,
    ensures
        r is Ok <==> h264_dims_spec(
            chroma_format_idc as nat,
            separate_colour_plane_flag as nat,
            frame_mbs_only_flag as nat,
            w as nat,
            h as nat,
            match crop {
                Some((a, b, c, d)) => Some((a as nat, b as nat, c as nat, d as nat)),
                None => None,
            },
        ) is Some,
        r matches Ok(d) ==> h264_dims_spec(
            chroma_format_idc as nat,
            separate_colour_plane_flag as nat,
            frame_mbs_only_flag as nat,
            w as nat,
            h as nat,
            match crop {
                Some((a, b, c, d)) => Some((a as nat, b as nat, c as nat, d as nat)),
                None => None,
            },
        ) == Some(d),
        r matches Err(e) ==> e.kind == ErrorKind::InvalidInput,
{
    let width_l = (w as u64 + 1) * 16;
    let hh = (h as u64 + 1) * 16;
    let coded_height = if frame_mbs_only_flag == 0 {
        2 * hh
    } else {
        hh
    };
    let (ux, uy): (u64, u64) = if separate_colour_plane_flag == 1 || chroma_format_idc == 0 {
        (1, 2 - frame_mbs_only_flag as u64)
    } else if chroma_format_idc == 1 {
        (2, 2 * (2 - frame_mbs_only_flag as u64))
    } else if chroma_format_idc == 2 {
        (2, 2 - frame_mbs_only_flag as u64)
    } else {
        (1, 2 - frame_mbs_only_flag as u64)
    };
    let (cl, cr, ct, cb): (u64, u64, u64, u64) = match crop {
        Some((a, b, c, d)) => (a as u64, b as u64, c as u64, d as u64),
        None => (0, 0, 0, 0),
    };
    proof {
        assert(cl <= u32::MAX && cr <= u32::MAX && ct <= u32::MAX && cb <= u32::MAX);
    }
    let sum_x = cl + cr;
    let sum_y = ct + cb;
    assert(sum_x <= 0x1_ffff_fffe && sum_y <= 0x1_ffff_fffe);
    let crop_w = if ux == 1 {
        sum_x
    } else {
        2 * sum_x
    };
    let crop_h = if uy == 1 {
        sum_y
    } else if uy == 2 {
        2 * sum_y
    } else {
        4 * sum_y
    };
    proof {
        assert(crop_w == ux * sum_x) by (nonlinear_arith)
            requires
                ux == 1 || ux == 2,
                ux == 1 ==> crop_w == sum_x,
                ux == 2 ==> crop_w == 2 * sum_x,
        ;
        assert(crop_h == uy * sum_y) by (nonlinear_arith)
            requires
                uy == 1 || uy == 2 || uy == 4,
                uy == 1 ==> crop_h == sum_y,
                uy == 2 ==> crop_h == 2 * sum_y,
                uy == 4 ==> crop_h == 4 * sum_y,
        ;
        assert(coded_height == (2 - frame_mbs_only_flag) * (h + 1) * 16) by (nonlinear_arith)
            requires
                frame_mbs_only_flag <= 1,
                hh == (h + 1) * 16,
                frame_mbs_only_flag == 0 ==> coded_height == 2 * hh,
                frame_mbs_only_flag == 1 ==> coded_height == hh,
        ;
    }
    if crop_w > width_l {
        return Err(Error::invalid_input("frame cropping exceeds the coded width"));
    }
    let cropped_width = width_l - crop_w;
    if crop_h > coded_height {
        return Err(Error::invalid_input("frame cropping exceeds the coded height"));
    }
    let cropped_height = coded_height - crop_h;
    if cropped_width == 0 || cropped_height == 0 {
        return Err(Error::invalid_input("cropped width and height must be non-zero"));
    }
    if cropped_width > 0xffff {
        return Err(Error::invalid_input("frame width exceeds u16::MAX"));
    }
    if cropped_height > 0xffff {
        return Err(Error::invalid_input("frame height exceeds u16::MAX"));
    }
    Ok((cropped_width as u16, cropped_height as u16))
}

/// Parses an SPS NAL unit (header byte and EBSP).
///
/// Fails on an invalid header, a type other than 7, values out of range
/// (`chroma_format_idc > 3`, bit depths above 6, `pic_order_cnt_type > 2`),
/// syntax that ends before the cropping offsets, cropping that exceeds the
/// coded size, and a cropped width or height that is 0 or above `u16::MAX`.
/// The syntax after `frame_cropping` (VUI) is not read.
pub fn parse_sps(nal_unit: &[u8]) -> (r: Result<H264Sps, Error>)
    ensures
        r is Ok <==> h264_parse_sps_spec(nal_unit@) is Some,
        r matches Ok(s) ==> h264_parse_sps_spec(nal_unit@) == Some(s),
        r matches Err(e) ==> e.kind == ErrorKind::InvalidInput,
{
    let nal_unit_type = validate_h264_nal_header(nal_unit)?;
    if nal_unit_type != H264NalUnitType::Sps {
        return Err(Error::invalid_input("SPS NAL unit type must be 7"));
    }
    let rbsp = remove_emulation_prevention_bytes(&nal_unit[1..nal_unit.len()]);
    let mut reader = BitReader::new(rbsp.as_slice());
    let ghost r = rbsp@;
    proof {
        crate::bits::lemma_two_pow_values();
        crate::bits::lemma_bits_value_bound(r, 0, 8);
        crate::bits::lemma_bits_value_bound(r, 8, 8);
        crate::bits::lemma_bits_value_bound(r, 16, 8);
    }
    let profile_idc = reader.read_bits(8)? as u8;
    let constraint_set_flags = reader.read_bits(8)? as u8;
    let level_idc = reader.read_bits(8)? as u8;
    let _seq_parameter_set_id = reader.read_ue()?;
    let (chroma_format_idc, separate_colour_plane_flag, bit_depth_luma_minus8, bit_depth_chroma_minus8) =
        read_sps_ext(&mut reader, profile_idc)?;
    skip_poc(&mut reader)?;
    let (w, h, frame_mbs_only_flag, crop) = read_frame(&mut reader)?;
    let (width, height) = cropped_size(
        chroma_format_idc,
        separate_colour_plane_flag,
        frame_mbs_only_flag,
        w,
        h,
        crop,
    )?;
    Ok(
        H264Sps {
            profile_idc,
            constraint_set_flags,
            level_idc,
            chroma_format_idc: chroma_format_idc as u8,
            bit_depth_luma_minus8: bit_depth_luma_minus8 as u8,
            bit_depth_chroma_minus8: bit_depth_chroma_minus8 as u8,
            width,
            height,
        },
    )
}

} // verus!

verus! {

/// Settings of an `avc1` entry that the stream does not determine.
#[derive(Debug, Clone, Copy, PartialEq, Eq, Hash)]
pub struct H264SampleEntryConfig {
    /// Width of the NAL length fields.
    pub length_size: LengthSize,
}

/// The byte strings of a list of byte vectors.
pub open spec fn byte_lists(v: Seq<Vec<u8>>) -> Seq<Seq<u8>> {
    Seq::new(v.len(), |i: int| v[i]@)
}

/// `b` fits an `avcC` parameter set entry: at most 65535 bytes, with a
/// valid header of type `t`.
pub open spec fn h264_param_ok(b: Seq<u8>, t: H264NalUnitType) -> bool {
    b.len() <= 0xffff && h264_header_ok(b) && h264_type_of(b) == t
}

/// The parameter sets [`build_avc1_box`] accepts: 1 to 31 SPSs and 1 to 255
/// PPSs that fit `avcC`, and a first SPS that parses.
pub open spec fn avc1_inputs_ok(sps: Seq<Seq<u8>>, pps: Seq<Seq<u8>>) -> bool {
    &&& 1 <= sps.len() <= 31
    &&& 1 <= pps.len() <= 255
    &&& forall|i: int| 0 <= i < sps.len() ==> h264_param_ok(#[trigger] sps[i], H264NalUnitType::Sps)
    &&& forall|i: int| 0 <= i < pps.len() ==> h264_param_ok(#[trigger] pps[i], H264NalUnitType::Pps)
    &&& h264_parse_sps_spec(sps[0]) is Some
}

/// `b` is the `avc1` entry built from the parameter sets `sps_list` /
/// `pps_list`, whose first SPS is `sps`, with NAL length fields of `ls`.
pub open spec fn avc1_box_of(
    sps_list: Seq<Seq<u8>>,
    pps_list: Seq<Seq<u8>>,
    sps: H264Sps,
    ls: LengthSize,
    b: Avc1Box,
) -> bool {
    let c = b.avcc_box;
    let base = sps.profile_idc == 66 || sps.profile_idc == 77 || sps.profile_idc == 88;
    &&& c.avc_profile_indication == sps.profile_idc
    &&& c.profile_compatibility == sps.constraint_set_flags
    &&& c.avc_level_indication == sps.level_idc
    &&& c.length_size_minus_one + 1 == ls.width()
    &&& byte_lists(c.sps_list@) == sps_list
    &&& byte_lists(c.pps_list@) == pps_list
    &&& c.chroma_format == (if base { None } else { Some(sps.chroma_format_idc) })
    &&& c.bit_depth_luma_minus8 == (if base { None } else { Some(sps.bit_depth_luma_minus8) })
    &&& c.bit_depth_chroma_minus8 == (if base { None } else { Some(sps.bit_depth_chroma_minus8) })
    &&& c.sps_ext_list@.len() == 0
    &&& is_default_visual(b.visual, DEFAULT_DATA_REFERENCE_INDEX, sps.width, sps.height)
    &&& b.unknown_boxes@.len() == 0
}

/// Checks that every entry fits `avcC` and has a header of type `t`.
fn check_params(list: &[Vec<u8>], t: H264NalUnitType) -> (r: Result<(), Error>)
    ensures
        r is Ok <==> forall|i: int|
            0 <= i < list@.len() ==> h264_param_ok(#[trigger] byte_lists(list@)[i], t),
        r matches Err(e) ==> e.kind == ErrorKind::InvalidInput,
{
    let mut i: usize = 0;
    while i < list.len()
        invariant
            i <= list@.len(),
            forall|k: int| 0 <= k < i ==> h264_param_ok(#[trigger] byte_lists(list@)[k], t),
        decreases list@.len() - i,
    {
        let b = list[i].as_slice();
        proof {
            assert(byte_lists(list@)[i as int] == b@);
        }
        if b.len() > 0xffff {
            return Err(Error::invalid_input("parameter set is too long (max u16::MAX)"));
        }
        let found = validate_h264_nal_header(b)?;
        if found != t {
            return Err(Error::invalid_input("parameter set has an unexpected NAL unit type"));
        }
        i += 1;
    }
    Ok(())
}

/// Builds an `avc1` sample entry from SPS / PPS NAL units (EBSP, no start
/// codes).
///
/// `avcC` takes its profile, compatibility and level from the first SPS,
/// stores the lists as given, and carries the chroma format and bit depths
/// outside profiles 66 / 77 / 88; the visual fields take the first SPS's
/// cropped size. Fails when a list is empty or too long, an entry is above
/// 65535 bytes or has the wrong header, or the first SPS does not parse.
pub fn build_avc1_box(sps_list: &[Vec<u8>], pps_list: &[Vec<u8>], config: &H264SampleEntryConfig) -> (r:
    Result<Avc1Box, Error>)
    ensures
        r is Ok <==> avc1_inputs_ok(byte_lists(sps_list@), byte_lists(pps_list@)),
        r matches Ok(b) ==> avc1_box_of(
            byte_lists(sps_list@),
            byte_lists(pps_list@),
            h264_parse_sps_spec(byte_lists(sps_list@)[0]).unwrap(),
            config.length_size,
            b,
        ),
        r matches Err(e) ==> e.kind == ErrorKind::InvalidInput,
{
    if sps_list.len() == 0 {
        return Err(Error::invalid_input("SPS list must not be empty"));
    }
    if pps_list.len() == 0 {
        return Err(Error::invalid_input("PPS list must not be empty"));
    }
    if sps_list.len() > MAX_SPS_COUNT {
        return Err(Error::invalid_input("too many SPSs (max 31)"));
    }
    if pps_list.len() > MAX_PPS_COUNT {
        return Err(Error::invalid_input("too many PPSs (max 255)"));
    }
    check_params(sps_list, H264NalUnitType::Sps)?;
    check_params(pps_list, H264NalUnitType::Pps)?;
    proof {
        assert(byte_lists(sps_list@)[0] == sps_list@[0]@);
    }
    let sps = parse_sps(sps_list[0].as_slice())?;
    let length_size_minus_one = config.length_size.length_size_minus_one();
    let base = sps.profile_idc == 66 || sps.profile_idc == 77 || sps.profile_idc == 88;
    let (chroma_format, bit_depth_luma_minus8, bit_depth_chroma_minus8) = if base {
        (None, None, None)
    } else {
        (
            Some(sps.chroma_format_idc),
            Some(sps.bit_depth_luma_minus8),
            Some(sps.bit_depth_chroma_minus8),
        )
    };
    let sps_copy = copy_byte_lists(sps_list);
    let pps_copy = copy_byte_lists(pps_list);
    proof {
        assert(byte_lists(sps_copy@) =~= byte_lists(sps_list@));
        assert(byte_lists(pps_copy@) =~= byte_lists(pps_list@));
    }
    let avcc_box = AvccBox {
        avc_profile_indication: sps.profile_idc,
        profile_compatibility: sps.constraint_set_flags,
        avc_level_indication: sps.level_idc,
        length_size_minus_one,
        sps_list: sps_copy,
        pps_list: pps_copy,
        chroma_format,
        bit_depth_luma_minus8,
        bit_depth_chroma_minus8,
        sps_ext_list: Vec::new(),
    };
    let visual = make_visual(DEFAULT_DATA_REFERENCE_INDEX, sps.width, sps.height);
    Ok(Avc1Box { visual, avcc_box, unknown_boxes: Vec::new() })
}

/// The units of `bodies` whose header names type `t`, in order.
pub open spec fn h264_bodies_of_type(bodies: Seq<Seq<u8>>, t: H264NalUnitType) -> Seq<Seq<u8>>
    decreases bodies.len(),
{
    if bodies.len() == 0 {
        Seq::empty()
    } else {
        let prev = h264_bodies_of_type(bodies.drop_last(), t);
        if h264_type_of(bodies.last()) == t {
            prev.push(bodies.last())
        } else {
            prev
        }
    }
}

proof fn lemma_collected_bodies(units: Seq<H264NalUnit>, bodies: Seq<Seq<u8>>, t: H264NalUnitType)
    requires
        h264_units_of(units, bodies),
    ensures
        h264_collected(units, t) == h264_bodies_of_type(bodies, t),
    decreases units.len(),
{
    if units.len() > 0 {
        assert(h264_units_of(units.drop_last(), bodies.drop_last()));
        lemma_collected_bodies(units.drop_last(), bodies.drop_last(), t);
        assert(units.last() == units[units.len() - 1]);
    }
}

/// Copies borrowed NAL units into owned vectors.
fn to_owned_lists(list: &Vec<&[u8]>) -> (r: Vec<Vec<u8>>)
    ensures
        byte_lists(r@) == slice_views(list@),
{
    let mut out: Vec<Vec<u8>> = Vec::new();
    let mut i: usize = 0;
    while i < list.len()
        invariant
            i <= list@.len(),
            out@.len() == i,
            forall|k: int| 0 <= k < i ==> #[trigger] out@[k]@ == list@[k]@,
        decreases list@.len() - i,
    {
        out.push(vstd::slice::slice_to_vec(list[i]));
        i += 1;
    }
    proof {
        assert(byte_lists(out@) =~= slice_views(list@));
    }
    out
}

/// Builds an `avc1` sample entry from an Annex B stream: the SPSs and PPSs
/// it holds, in order, go to [`build_avc1_box`]; other units are ignored.
pub fn build_avc1_box_from_annexb(input: &[u8], config: &H264SampleEntryConfig) -> (r: Result<
    Avc1Box,
    Error,
>)
    ensures
        r is Ok <==> (scan_annexb_spec(input@) matches Some(b) && h264_headers_ok(b)
            && avc1_inputs_ok(
            h264_bodies_of_type(b, H264NalUnitType::Sps),
            h264_bodies_of_type(b, H264NalUnitType::Pps),
        )),
        r matches Ok(x) ==> avc1_box_of(
            h264_bodies_of_type(scan_annexb_spec(input@).unwrap(), H264NalUnitType::Sps),
            h264_bodies_of_type(scan_annexb_spec(input@).unwrap(), H264NalUnitType::Pps),
            h264_parse_sps_spec(
                h264_bodies_of_type(scan_annexb_spec(input@).unwrap(), H264NalUnitType::Sps)[0],
            ).unwrap(),
            config.length_size,
            x,
        ),
        r matches Err(e) ==> e.kind == ErrorKind::InvalidInput,
        !(scan_annexb_spec(input@) matches Some(b) && h264_headers_ok(b)) ==> (r matches Err(e)
            && e.reason == h264_annexb_reason(input@)),
{
    let nals = match parse_annexb_nal_units(input) {
        Ok(n) => n,
        Err(e) => return Err(e),
    };
    let sps = collect_nal_units(nals.as_slice(), H264NalUnitType::Sps);
    let pps = collect_nal_units(nals.as_slice(), H264NalUnitType::Pps);
    proof {
        let b = scan_annexb_spec(input@).unwrap();
        lemma_collected_bodies(nals@, b, H264NalUnitType::Sps);
        lemma_collected_bodies(nals@, b, H264NalUnitType::Pps);
    }
    let sps_list = to_owned_lists(&sps);
    let pps_list = to_owned_lists(&pps);
    build_avc1_box(sps_list.as_slice(), pps_list.as_slice(), config)
}

/// Building an `avc1` entry from an Annex B stream is parsing the stream
/// ([`parse_annexb_nal_units`]), collecting its SPSs and PPSs in order
/// ([`collect_nal_units`]) and calling [`build_avc1_box`] on those lists:
/// when the parse fails, so does the build from the stream (whose contract
/// gives it the parse's error); when it gives
/// `nals`, the stream's parameter lists are the collected ones, so both
/// succeed on the same streams and describe the same entries.
pub proof fn lemma_avc1_from_annexb_two_step(
    input: Seq<u8>,
    nals: Seq<H264NalUnit>,
    ls: LengthSize,
    x: Avc1Box,
)
    ensures
        !(scan_annexb_spec(input) matches Some(b) && h264_headers_ok(b)) ==> !(scan_annexb_spec(
            input,
        ) matches Some(b) && h264_headers_ok(b) && avc1_inputs_ok(
            h264_bodies_of_type(b, H264NalUnitType::Sps),
            h264_bodies_of_type(b, H264NalUnitType::Pps),
        )),
        (scan_annexb_spec(input) matches Some(b) && h264_headers_ok(b) && h264_units_of(nals, b))
            ==> {
            let b = scan_annexb_spec(input).unwrap();
            let s = h264_bodies_of_type(b, H264NalUnitType::Sps);
            let p = h264_bodies_of_type(b, H264NalUnitType::Pps);
            let cs = h264_collected(nals, H264NalUnitType::Sps);
            let cp = h264_collected(nals, H264NalUnitType::Pps);
            &&& avc1_inputs_ok(s, p) <==> avc1_inputs_ok(cs, cp)
            &&& avc1_box_of(s, p, h264_parse_sps_spec(s[0]).unwrap(), ls, x) <==> avc1_box_of(
                cs,
                cp,
                h264_parse_sps_spec(cs[0]).unwrap(),
                ls,
                x,
            )
        },
{
    if scan_annexb_spec(input) is Some && h264_units_of(nals, scan_annexb_spec(input).unwrap()) {
        let b = scan_annexb_spec(input).unwrap();
        lemma_collected_bodies(nals, b, H264NalUnitType::Sps);
        lemma_collected_bodies(nals, b, H264NalUnitType::Pps);
    }
}

} // verus!
