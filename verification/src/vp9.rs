//! VP9 uncompressed frame header parsing and `vp09` / `vpcC` construction.
use vstd::prelude::*;

use crate::bits::{bit_at, bit_len, bit_spec, bits_spec, bits_value, BitReader};
use crate::boxes::{is_default_visual, make_visual, SampleEntry, Vp09Box, VpccBox, DEFAULT_DATA_REFERENCE_INDEX};
use crate::sample_entries::{sample_entry_fits, sample_entry_ok};
use crate::error::{Error, ErrorKind};

verus! {

/// `frame_marker` value.
const FRAME_MARKER: u64 = 2;

/// `color_space` value of sRGB.
const COLOR_SPACE_SRGB: u8 = 7;

/// `refresh_frame_flags` of a key frame (all slots).
const REFRESH_FRAME_FLAGS_ALL: u8 = 0xFF;

/// `refresh_frame_flags` of a shown existing frame (no slot).
const REFRESH_FRAME_FLAGS_NONE: u8 = 0;

/// VP9 frame type.
#[derive(Debug, Clone, Copy, PartialEq, Eq, Hash, Structural)]
pub enum Vp9FrameType {
    /// Key frame
    Key,
    /// Inter or intra-only frame
    NonKey,
}

/// Frame size as the header gives it.
#[derive(Debug, Clone, Copy, PartialEq, Eq, Hash)]
pub enum Vp9FrameSize {
    /// Size written in the header.
    Resolved {
        /// Width in pixels.
        width: u32,
        /// Height in pixels.
        height: u32,
    },
    /// Size taken from a reference frame slot.
    UsesRefFrames {
        /// The slot (`ref_frame_idx`) the size comes from.
        ref_frame_slot: u8,
    },
    /// No size in the header (`show_existing_frame`).
    NotPresent,
}

/// Fields of a VP9 uncompressed header. Colour fields are 0 where the header
/// does not carry them (inter frames, `show_existing_frame`).
#[derive(Debug, Clone, PartialEq, Eq, Hash)]
pub struct Vp9FrameHeader {
    /// Profile (0..=3)
    pub profile: u8,
    /// `frame_to_show_map_idx` when `show_existing_frame` is set.
    pub show_existing_frame: Option<u8>,
    /// Frame type
    pub frame_type: Vp9FrameType,
    /// `show_frame`
    pub show_frame: bool,
    /// `error_resilient_mode`
    pub error_resilient_mode: bool,
    /// `intra_only`
    pub intra_only: bool,
    /// `refresh_frame_flags`
    pub refresh_frame_flags: u8,
    /// Bit depth (8, 10, 12; 0 where not carried)
    pub bit_depth: u8,
    /// `color_space`
    pub color_space: u8,
    /// `color_range`
    pub color_range: u8,
    /// `subsampling_x`
    pub subsampling_x: u8,
    /// `subsampling_y`
    pub subsampling_y: u8,
    /// Frame size
    pub frame_size: Vp9FrameSize,
    /// Render size when it differs from the frame size.
    pub render_size: Option<(u32, u32)>,
}

/// Settings of a `vp09` sample entry that one frame does not fix.
#[derive(Debug, Clone, PartialEq, Eq, Hash)]
pub struct Vp9SampleEntryConfig {
    /// Level; `None` writes 0 (undefined).
    pub level: Option<u8>,
    /// ColourPrimaries (ISO/IEC 23001-8).
    pub colour_primaries: u8,
    /// TransferCharacteristics (ISO/IEC 23001-8).
    pub transfer_characteristics: u8,
    /// MatrixCoefficients (ISO/IEC 23001-8).
    pub matrix_coefficients: u8,
    /// Width bound of every sample of the entry.
    pub width: u16,
    /// Height bound of every sample of the entry.
    pub height: u16,
}

impl Vp9SampleEntryConfig {
    /// BT.709 colour primaries.
    pub const COLOUR_PRIMARIES_BT709: u8 = 1;
    /// BT.709 transfer characteristics.
    pub const TRANSFER_CHARACTERISTICS_BT709: u8 = 1;
    /// BT.709 matrix coefficients.
    pub const MATRIX_COEFFICIENTS_BT709: u8 = 1;
    /// BT.601 colour primaries.
    pub const COLOUR_PRIMARIES_BT601: u8 = 6;
    /// BT.601 transfer characteristics.
    pub const TRANSFER_CHARACTERISTICS_BT601: u8 = 6;
    /// BT.601 matrix coefficients.
    pub const MATRIX_COEFFICIENTS_BT601: u8 = 6;
    /// BT.2020 colour primaries.
    pub const COLOUR_PRIMARIES_BT2020: u8 = 9;
    /// BT.2020 (10 bit) transfer characteristics.
    pub const TRANSFER_CHARACTERISTICS_BT2020: u8 = 14;
    /// BT.2020 non-constant luminance matrix coefficients.
    pub const MATRIX_COEFFICIENTS_BT2020: u8 = 9;
    /// sRGB colour primaries.
    pub const COLOUR_PRIMARIES_SRGB: u8 = 1;
    /// sRGB transfer characteristics.
    pub const TRANSFER_CHARACTERISTICS_SRGB: u8 = 13;
    /// sRGB (identity) matrix coefficients.
    pub const MATRIX_COEFFICIENTS_SRGB: u8 = 0;
    /// Unspecified colour primaries.
    pub const COLOUR_PRIMARIES_UNSPECIFIED: u8 = 2;
    /// Unspecified transfer characteristics.
    pub const TRANSFER_CHARACTERISTICS_UNSPECIFIED: u8 = 2;
    /// Unspecified matrix coefficients.
    pub const MATRIX_COEFFICIENTS_UNSPECIFIED: u8 = 2;
}

/// Colour configuration `(bit_depth, color_space, color_range,
/// subsampling_x, subsampling_y)`.
pub type Vp9Color = (u8, u8, u8, u8, u8);

/// `color_config()` read at `p` for `profile`: the colour configuration and
/// the position after it, or `None` where it ends early or is not allowed
/// (reserved bits set, 4:2:0 in profile 1 / 3, sRGB in profile 0 / 2).
pub open spec fn vp9_color_spec(r: Seq<u8>, p: int, profile: nat) -> Option<(Vp9Color, int)> {
    match (if profile >= 2 {
        match bit_spec(r, p) {
            None => None,
            Some((b, q)) => Some((if b != 0 { 12u8 } else { 10u8 }, q)),
        }
    } else {
        Some((8u8, p))
    }) {
        None => None,
        Some((bd, p1)) => match bits_spec(r, p1, 3) {
            None => None,
            Some((cs, p2)) => if cs != 7 {
                match bit_spec(r, p2) {
                    None => None,
                    Some((cr, p3)) => if profile == 1 || profile == 3 {
                        match bit_spec(r, p3) {
                            None => None,
                            Some((sx, p4)) => match bit_spec(r, p4) {
                                None => None,
                                Some((sy, p5)) => match bit_spec(r, p5) {
                                    None => None,
                                    Some((z, p6)) => if z != 0 || (sx == 1 && sy == 1) {
                                        None
                                    } else {
                                        Some(((bd, cs as u8, cr, sx, sy), p6))
                                    },
                                },
                            },
                        }
                    } else {
                        Some(((bd, cs as u8, cr, 1u8, 1u8), p3))
                    },
                }
            } else if profile != 1 && profile != 3 {
                None
            } else {
                match bit_spec(r, p2) {
                    None => None,
                    Some((z, p3)) => if z != 0 {
                        None
                    } else {
                        Some(((bd, cs as u8, 1u8, 0u8, 0u8), p3))
                    },
                }
            },
        },
    }
}

/// `frame_sync_code` at `p`: the position after it, or `None` unless the
/// three bytes are `0x49 0x83 0x42`.
pub open spec fn vp9_sync_spec(r: Seq<u8>, p: int) -> Option<int> {
    if p + 24 > bit_len(r) || bits_value(r, p, 8) != 0x49 || bits_value(r, p + 8, 8) != 0x83
        || bits_value(r, p + 16, 8) != 0x42 {
        None
    } else {
        Some(p + 24)
    }
}

/// `frame_size()` at `p`: `(width, height, position after)`.
pub open spec fn vp9_frame_size_spec(r: Seq<u8>, p: int) -> Option<(u32, u32, int)> {
    if p + 32 > bit_len(r) {
        None
    } else {
        Some(((bits_value(r, p, 16) + 1) as u32, (bits_value(r, p + 16, 16) + 1) as u32, p + 32))
    }
}

/// `render_size()` at `p`: the render size when it differs, and the
/// position after it.
pub open spec fn vp9_render_spec(r: Seq<u8>, p: int) -> Option<(Option<(u32, u32)>, int)> {
    match bit_spec(r, p) {
        None => None,
        Some((d, q)) => if d == 0 {
            Some((None, q))
        } else {
            match vp9_frame_size_spec(r, q) {
                None => None,
                Some((w, h, q2)) => Some((Some((w, h)), q2)),
            }
        },
    }
}

/// The `found_ref` bits from reference `i` on: the slot of the first set
/// one (or `None` when all three are clear) and the position after the bits read.
pub open spec fn vp9_found_spec(r: Seq<u8>, p: int, idx: Seq<nat>, i: nat) -> Option<(Option<u8>, int)>
    decreases 3 - i,
{
    if i >= 3 {
        Some((None, p))
    } else {
        match bit_spec(r, p) {
            None => None,
            Some((f, q)) => if f != 0 {
                Some((Some(idx[i as int] as u8), q))
            } else {
                vp9_found_spec(r, q, idx, i + 1)
            },
        }
    }
}

/// A header with the given common fields, colour and sizes.
pub open spec fn vp9_header(
    profile: nat,
    frame_type: Vp9FrameType,
    show_frame: bool,
    error_resilient_mode: bool,
    intra_only: bool,
    refresh_frame_flags: u8,
    color: Vp9Color,
    frame_size: Vp9FrameSize,
    render_size: Option<(u32, u32)>,
) -> Vp9FrameHeader {
    Vp9FrameHeader {
        profile: profile as u8,
        show_existing_frame: None,
        frame_type,
        show_frame,
        error_resilient_mode,
        intra_only,
        refresh_frame_flags,
        bit_depth: color.0,
        color_space: color.1,
        color_range: color.2,
        subsampling_x: color.3,
        subsampling_y: color.4,
        frame_size,
        render_size,
    }
}

/// The rest of a key frame header from `p`.
pub open spec fn vp9_key_spec(r: Seq<u8>, p: int, profile: nat, sf: bool, erm: bool) -> Option<Vp9FrameHeader> {
    match vp9_sync_spec(r, p) {
        None => None,
        Some(p1) => match vp9_color_spec(r, p1, profile) {
            None => None,
            Some((c, p2)) => match vp9_frame_size_spec(r, p2) {
                None => None,
                Some((w, h, p3)) => match vp9_render_spec(r, p3) {
                    None => None,
                    Some((rs, _)) => Some(
                        vp9_header(
                            profile,
                            Vp9FrameType::Key,
                            sf,
                            erm,
                            false,
                            0xff,
                            c,
                            Vp9FrameSize::Resolved { width: w, height: h },
                            rs,
                        ),
                    ),
                },
            },
        },
    }
}

/// The rest of an intra-only frame header from `p` (after the sync code
/// position). Profile 0 does not carry a colour configuration: 8 bit,
/// BT.601, studio range, 4:2:0.
pub open spec fn vp9_intra_spec(r: Seq<u8>, p: int, profile: nat, sf: bool, erm: bool) -> Option<Vp9FrameHeader> {
    match vp9_sync_spec(r, p) {
        None => None,
        Some(p1) => match (if profile > 0 {
            vp9_color_spec(r, p1, profile)
        } else {
            Some(((8u8, 1u8, 0u8, 1u8, 1u8), p1))
        }) {
            None => None,
            Some((c, p2)) => match bits_spec(r, p2, 8) {
                None => None,
                Some((refresh, p3)) => match vp9_frame_size_spec(r, p3) {
                    None => None,
                    Some((w, h, p4)) => match vp9_render_spec(r, p4) {
                        None => None,
                        Some((rs, _)) => Some(
                            vp9_header(
                                profile,
                                Vp9FrameType::NonKey,
                                sf,
                                erm,
                                true,
                                refresh as u8,
                                c,
                                Vp9FrameSize::Resolved { width: w, height: h },
                                rs,
                            ),
                        ),
                    },
                },
            },
        },
    }
}

/// The three `ref_frame_idx` values after `refresh_frame_flags` at `p`
/// (each followed by a sign bias bit).
pub open spec fn vp9_ref_idx(r: Seq<u8>, p: int) -> Seq<nat> {
    seq![bits_value(r, p, 3), bits_value(r, p + 4, 3), bits_value(r, p + 8, 3)]
}

/// The rest of an inter frame header from `p`.
pub open spec fn vp9_inter_spec(r: Seq<u8>, p: int, profile: nat, sf: bool, erm: bool) -> Option<Vp9FrameHeader> {
    match bits_spec(r, p, 8) {
        None => None,
        Some((refresh, p1)) => if p1 + 12 > bit_len(r) {
            None
        } else {
            match vp9_found_spec(r, p1 + 12, vp9_ref_idx(r, p1), 0) {
                None => None,
                Some((found, p2)) => match (match found {
                    Some(slot) => Some((Vp9FrameSize::UsesRefFrames { ref_frame_slot: slot }, p2)),
                    None => match vp9_frame_size_spec(r, p2) {
                        None => None,
                        Some((w, h, q)) => Some((Vp9FrameSize::Resolved { width: w, height: h }, q)),
                    },
                }) {
                    None => None,
                    Some((fs, p3)) => match vp9_render_spec(r, p3) {
                        None => None,
                        Some((rs, _)) => Some(
                            vp9_header(
                                profile,
                                Vp9FrameType::NonKey,
                                sf,
                                erm,
                                false,
                                refresh as u8,
                                (0u8, 0u8, 0u8, 0u8, 0u8),
                                fs,
                                rs,
                            ),
                        ),
                    },
                },
            }
        },
    }
}

/// The rest of a non-key frame header from `p`: `intra_only` (read only
/// when the frame is not shown), `reset_frame_context` (skipped unless
/// error resilient), then the intra-only or inter syntax.
pub open spec fn vp9_non_key_spec(r: Seq<u8>, p: int, profile: nat, sf: bool, erm: bool) -> Option<Vp9FrameHeader> {
    match (if !sf {
        match bit_spec(r, p) {
            None => None,
            Some((b, q)) => Some((b != 0, q)),
        }
    } else {
        Some((false, p))
    }) {
        None => None,
        Some((intra, p1)) => match (if !erm {
            if p1 + 2 > bit_len(r) {
                None
            } else {
                Some(p1 + 2)
            }
        } else {
            Some(p1)
        }) {
            None => None,
            Some(p2) => if intra {
                vp9_intra_spec(r, p2, profile, sf, erm)
            } else {
                vp9_inter_spec(r, p2, profile, sf, erm)
            },
        },
    }
}

/// The header that the uncompressed header bytes `r` describe.
pub open spec fn vp9_header_spec(r: Seq<u8>) -> Option<Vp9FrameHeader> {
    if bit_len(r) < 4 || bits_value(r, 0, 2) != 2 {
        None
    } else {
        let profile = bit_at(r, 3) * 2 + bit_at(r, 2);
        match (if profile == 3 {
            match bit_spec(r, 4) {
                None => None,
                Some((z, q)) => if z != 0 {
                    None
                } else {
                    Some(q)
                },
            }
        } else {
            Some(4int)
        }) {
            None => None,
            Some(p1) => match bit_spec(r, p1) {
                None => None,
                Some((sef, p2)) => if sef != 0 {
                    match bits_spec(r, p2, 3) {
                        None => None,
                        Some((idx, _)) => Some(
                            Vp9FrameHeader {
                                profile: profile as u8,
                                show_existing_frame: Some(idx as u8),
                                frame_type: Vp9FrameType::NonKey,
                                show_frame: true,
                                error_resilient_mode: false,
                                intra_only: false,
                                refresh_frame_flags: 0,
                                bit_depth: 0,
                                color_space: 0,
                                color_range: 0,
                                subsampling_x: 0,
                                subsampling_y: 0,
                                frame_size: Vp9FrameSize::NotPresent,
                                render_size: None,
                            },
                        ),
                    }
                } else {
                    match bit_spec(r, p2) {
                        None => None,
                        Some((ft, p3)) => match bit_spec(r, p3) {
                            None => None,
                            Some((sf, p4)) => match bit_spec(r, p4) {
                                None => None,
                                Some((erm, p5)) => if ft == 0 {
                                    vp9_key_spec(r, p5, profile as nat, sf != 0, erm != 0)
                                } else {
                                    vp9_non_key_spec(r, p5, profile as nat, sf != 0, erm != 0)
                                },
                            },
                        },
                    }
                },
            },
        }
    }
}

proof fn lemma_vp9_found_first(r: Seq<u8>, q: int, idx: Seq<nat>, k: nat, i: nat)
    requires
        k <= i < 3,
        0 <= q,
        q + (i - k) + 1 <= bit_len(r),
        bit_at(r, q + (i - k)) == 1,
        forall|j: int| 0 <= j < i - k ==> #[trigger] bit_at(r, q + j) == 0,
    ensures
        vp9_found_spec(r, q, idx, k) == Some((Some(idx[i as int] as u8), q + (i - k) + 1)),
    decreases i - k,
{
    if k < i {
        assert(bit_at(r, q + 0) == 0);
        assert forall|j: int| 0 <= j < i - (k + 1) implies #[trigger] bit_at(r, (q + 1) + j) == 0 by {
            assert(bit_at(r, q + (j + 1)) == 0);
        }
        lemma_vp9_found_first(r, q + 1, idx, k + 1, i);
    }
}

proof fn lemma_vp9_found_none(r: Seq<u8>, q: int, idx: Seq<nat>, k: nat)
    requires
        k <= 3,
        0 <= q,
        q + (3 - k) <= bit_len(r),
        forall|j: int| 0 <= j < 3 - k ==> #[trigger] bit_at(r, q + j) == 0,
    ensures
        vp9_found_spec(r, q, idx, k) == Some((None::<u8>, q + (3 - k))),
    decreases 3 - k,
{
    if k < 3 {
        assert(bit_at(r, q + 0) == 0);
        assert forall|j: int| 0 <= j < 3 - (k + 1) implies #[trigger] bit_at(r, (q + 1) + j) == 0 by {
            assert(bit_at(r, q + (j + 1)) == 0);
        }
        lemma_vp9_found_none(r, q + 1, idx, k + 1);
    }
}

/// For a frame of profile 0 to 2 that is neither a shown existing frame nor
/// a key frame nor intra-only, whose `refresh_frame_flags` begin at bit `p`
/// (as in [`lemma_vp9_inter_size_from_ref_slot`]): when no `found_ref` bit is
/// set, the size is written out after them, `frame_width_minus_1` in the 16
/// bits at `p + 23` and `frame_height_minus_1` in the 16 bits after.
pub proof fn lemma_vp9_inter_size_written(r: Seq<u8>, p: int)
    requires
        vp9_header_spec(r) is Some,
        bit_len(r) >= 8,
        bits_value(r, 0, 2) == 2,
        !(bit_at(r, 2) == 1 && bit_at(r, 3) == 1),
        bit_at(r, 4) == 0,
        bit_at(r, 5) == 1,
        bit_at(r, 6) == 0 ==> bit_at(r, 8) == 0,
        p == 8 + (if bit_at(r, 6) == 0 { 1int } else { 0 }) + (if bit_at(r, 7) == 0 { 2int } else { 0 }),
        p + 23 <= bit_len(r),
        bit_at(r, p + 20) == 0 && bit_at(r, p + 21) == 0 && bit_at(r, p + 22) == 0,
    ensures
        vp9_header_spec(r).unwrap().frame_size == (Vp9FrameSize::Resolved {
            width: (bits_value(r, p + 23, 16) + 1) as u32,
            height: (bits_value(r, p + 39, 16) + 1) as u32,
        }),
        vp9_header_spec(r).unwrap().refresh_frame_flags == bits_value(r, p, 8) as u8,
{
    let profile = bit_at(r, 3) * 2 + bit_at(r, 2);
    crate::bits::lemma_bit_at_is_bit(r, 2);
    crate::bits::lemma_bit_at_is_bit(r, 3);
    let sf = bit_at(r, 6);
    let erm = bit_at(r, 7);
    assert(vp9_header_spec(r) == vp9_non_key_spec(r, 8, profile as nat, sf != 0, erm != 0));
    assert(vp9_non_key_spec(r, 8, profile as nat, sf != 0, erm != 0) == vp9_inter_spec(
        r,
        p,
        profile as nat,
        sf != 0,
        erm != 0,
    ));
    assert forall|j: int| 0 <= j < 3 - 0 implies #[trigger] bit_at(r, (p + 20) + j) == 0 by {
        assert(j == 0 || j == 1 || j == 2);
    }
    lemma_vp9_found_none(r, p + 20, vp9_ref_idx(r, p + 8), 0);
}

/// For a frame of profile 0 to 2 that is neither a shown existing frame nor
/// a key frame nor intra-only, whose `refresh_frame_flags` begin at bit `p`
/// (after `show_frame`, `error_resilient_mode`, the `intra_only` bit of an
/// unshown frame and the `reset_frame_context` bits without error
/// resilience): when `found_ref[i]` is the first set `found_ref` bit, the
/// frame takes its size from reference slot `ref_frame_idx[i]`, the three
/// bits at `p + 8 + 4 * i`, and `refresh_frame_flags` is the byte at `p`.
pub proof fn lemma_vp9_inter_size_from_ref_slot(r: Seq<u8>, p: int, i: nat)
    requires
        vp9_header_spec(r) is Some,
        bit_len(r) >= 8,
        bits_value(r, 0, 2) == 2,
        !(bit_at(r, 2) == 1 && bit_at(r, 3) == 1),
        bit_at(r, 4) == 0,
        bit_at(r, 5) == 1,
        bit_at(r, 6) == 0 ==> bit_at(r, 8) == 0,
        p == 8 + (if bit_at(r, 6) == 0 { 1int } else { 0 }) + (if bit_at(r, 7) == 0 { 2int } else { 0 }),
        i < 3,
        p + 21 + i <= bit_len(r),
        bit_at(r, p + 20 + i) == 1,
        forall|j: int| 0 <= j < i ==> #[trigger] bit_at(r, p + 20 + j) == 0,
    ensures
        vp9_header_spec(r).unwrap().frame_size == (Vp9FrameSize::UsesRefFrames {
            ref_frame_slot: bits_value(r, p + 8 + 4 * i, 3) as u8,
        }),
        vp9_header_spec(r).unwrap().refresh_frame_flags == bits_value(r, p, 8) as u8,
        vp9_header_spec(r).unwrap().frame_type == Vp9FrameType::NonKey,
        !vp9_header_spec(r).unwrap().intra_only,
{
    let profile = bit_at(r, 3) * 2 + bit_at(r, 2);
    crate::bits::lemma_bit_at_is_bit(r, 2);
    crate::bits::lemma_bit_at_is_bit(r, 3);
    assert(profile != 3);
    let sf = bit_at(r, 6);
    let erm = bit_at(r, 7);
    assert(vp9_header_spec(r) == vp9_non_key_spec(r, 8, profile as nat, sf != 0, erm != 0));
    assert(vp9_non_key_spec(r, 8, profile as nat, sf != 0, erm != 0) == vp9_inter_spec(
        r,
        p,
        profile as nat,
        sf != 0,
        erm != 0,
    ));
    let idx = vp9_ref_idx(r, p + 8);
    assert forall|j: int| 0 <= j < i - 0 implies #[trigger] bit_at(r, (p + 20) + j) == 0 by {
        assert(bit_at(r, p + 20 + j) == 0);
    }
    lemma_vp9_found_first(r, p + 20, idx, 0, i);
    assert(idx[i as int] == bits_value(r, p + 8 + 4 * i, 3));
}

} // verus!

verus! {

/// Colour configuration read from `color_config()`.
struct ColorConfig {
    bit_depth: u8,
    color_space: u8,
    color_range: u8,
    subsampling_x: u8,
    subsampling_y: u8,
}

impl ColorConfig {
    /// The configuration as a tuple.
    spec fn tuple(self) -> Vp9Color {
        (self.bit_depth, self.color_space, self.color_range, self.subsampling_x, self.subsampling_y)
    }
}

/// Reads one bit, which is 0 or 1.
fn read_flag(reader: &mut BitReader) -> (r: Result<u8, Error>)
    requires
        old(reader).wf(),
    ensures
        final(reader).wf(),
        final(reader).data() == old(reader).data(),
        r is Ok <==> bit_spec(old(reader).data(), old(reader).pos()) is Some,
        r matches Ok(b) ==> bit_spec(old(reader).data(), old(reader).pos()) == Some(
            (b, final(reader).pos()),
        ) && b <= 1,
        r matches Err(e) ==> e.kind == ErrorKind::InvalidInput,
{
    let ghost p = reader.pos();
    let b = reader.read_bit()?;
    proof {
        crate::bits::lemma_bit_at_is_bit(reader.data(), p);
    }
    Ok(b)
}

/// Reads `n <= 16` bits.
fn read_small(reader: &mut BitReader, n: u32) -> (r: Result<u32, Error>)
    requires
        old(reader).wf(),
        n <= 16,
    ensures
        final(reader).wf(),
        final(reader).data() == old(reader).data(),
        r is Ok <==> bits_spec(old(reader).data(), old(reader).pos(), n as nat) is Some,
        r matches Ok(v) ==> bits_spec(old(reader).data(), old(reader).pos(), n as nat) == Some(
            (v as nat, final(reader).pos()),
        ),
        r matches Ok(v) ==> v < crate::bits::two_pow(n as nat) && v <= 0xffff,
        r matches Err(e) ==> e.kind == ErrorKind::InvalidInput,
{
    let ghost p = reader.pos();
    let v = reader.read_bits(n)?;
    proof {
        crate::bits::lemma_bits_value_bound(reader.data(), p, n as nat);
        crate::bits::lemma_two_pow_monotone(n as nat, 16);
        crate::bits::lemma_two_pow_values();
    }
    Ok(v as u32)
}

/// Reads and checks `frame_sync_code`.
fn read_frame_sync_code(reader: &mut BitReader) -> (r: Result<(), Error>)
    requires
        old(reader).wf(),
    ensures
        final(reader).wf(),
        final(reader).data() == old(reader).data(),
        r is Ok <==> vp9_sync_spec(old(reader).data(), old(reader).pos()) is Some,
        r is Ok ==> vp9_sync_spec(old(reader).data(), old(reader).pos()) == Some(final(reader).pos()),
        r matches Err(e) ==> e.kind == ErrorKind::InvalidInput,
{
    let a = read_small(reader, 8)?;
    if a != 0x49 {
        return Err(Error::invalid_input("VP9 frame_sync_code mismatch (expected 0x49 0x83 0x42)"));
    }
    let b = read_small(reader, 8)?;
    if b != 0x83 {
        return Err(Error::invalid_input("VP9 frame_sync_code mismatch (expected 0x49 0x83 0x42)"));
    }
    let c = read_small(reader, 8)?;
    if c != 0x42 {
        return Err(Error::invalid_input("VP9 frame_sync_code mismatch (expected 0x49 0x83 0x42)"));
    }
    Ok(())
}

/// Reads `color_config()` for `profile`.
fn read_color_config(reader: &mut BitReader, profile: u8) -> (r: Result<ColorConfig, Error>)
    requires
        old(reader).wf(),
    ensures
        final(reader).wf(),
        final(reader).data() == old(reader).data(),
        r is Ok <==> vp9_color_spec(old(reader).data(), old(reader).pos(), profile as nat) is Some,
        r matches Ok(c) ==> vp9_color_spec(old(reader).data(), old(reader).pos(), profile as nat)
            == Some((c.tuple(), final(reader).pos())),
        r matches Err(e) ==> e.kind == ErrorKind::InvalidInput,
{
    let bit_depth: u8 = if profile >= 2 {
        if read_flag(reader)? != 0 {
            12
        } else {
            10
        }
    } else {
        8
    };
    proof {
        crate::bits::lemma_two_pow_values();
    }
    let color_space = read_small(reader, 3)? as u8;
    if color_space != COLOR_SPACE_SRGB {
        let color_range = read_flag(reader)?;
        if profile == 1 || profile == 3 {
            let sx = read_flag(reader)?;
            let sy = read_flag(reader)?;
            let reserved_zero = read_flag(reader)?;
            if reserved_zero != 0 {
                return Err(Error::invalid_input("VP9 color_config reserved_zero must be 0"));
            }
            if sx == 1 && sy == 1 {
                return Err(
                    Error::invalid_input(
                        "VP9 4:2:0 (subsampling 1,1) is not allowed in profile 1 or 3",
                    ),
                );
            }
            Ok(ColorConfig { bit_depth, color_space, color_range, subsampling_x: sx, subsampling_y: sy })
        } else {
            Ok(ColorConfig { bit_depth, color_space, color_range, subsampling_x: 1, subsampling_y: 1 })
        }
    } else {
        if profile != 1 && profile != 3 {
            return Err(Error::invalid_input("VP9 sRGB color_space requires profile 1 or 3"));
        }
        let reserved_zero = read_flag(reader)?;
        if reserved_zero != 0 {
            return Err(Error::invalid_input("VP9 color_config reserved_zero must be 0 (sRGB path)"));
        }
        Ok(ColorConfig { bit_depth, color_space, color_range: 1, subsampling_x: 0, subsampling_y: 0 })
    }
}

/// Reads `frame_size()`: width and height, each stored minus one in 16 bits.
fn read_frame_size(reader: &mut BitReader) -> (r: Result<(u32, u32), Error>)
    requires
        old(reader).wf(),
    ensures
        final(reader).wf(),
        final(reader).data() == old(reader).data(),
        r is Ok <==> vp9_frame_size_spec(old(reader).data(), old(reader).pos()) is Some,
        r matches Ok((w, h)) ==> vp9_frame_size_spec(old(reader).data(), old(reader).pos())
            == Some((w, h, final(reader).pos())),
        r matches Err(e) ==> e.kind == ErrorKind::InvalidInput,
{
    let width_minus_1 = read_small(reader, 16)?;
    let height_minus_1 = read_small(reader, 16)?;
    Ok((width_minus_1 + 1, height_minus_1 + 1))
}

/// Reads `render_size()`.
fn read_render_size(reader: &mut BitReader) -> (r: Result<Option<(u32, u32)>, Error>)
    requires
        old(reader).wf(),
    ensures
        final(reader).wf(),
        final(reader).data() == old(reader).data(),
        r is Ok <==> vp9_render_spec(old(reader).data(), old(reader).pos()) is Some,
        r matches Ok(s) ==> vp9_render_spec(old(reader).data(), old(reader).pos()) == Some(
            (s, final(reader).pos()),
        ),
        r matches Err(e) ==> e.kind == ErrorKind::InvalidInput,
{
    let different = read_flag(reader)?;
    if different == 0 {
        return Ok(None);
    }
    let (w, h) = read_frame_size(reader)?;
    Ok(Some((w, h)))
}

} // verus!

verus! {

/// A header from its parts (see [`vp9_header`]).
fn make_header(
    profile: u8,
    frame_type: Vp9FrameType,
    show_frame: bool,
    error_resilient_mode: bool,
    intra_only: bool,
    refresh_frame_flags: u8,
    color: &ColorConfig,
    frame_size: Vp9FrameSize,
    render_size: Option<(u32, u32)>,
) -> (r: Vp9FrameHeader)
    ensures
        r == vp9_header(
            profile as nat,
            frame_type,
            show_frame,
            error_resilient_mode,
            intra_only,
            refresh_frame_flags,
            color.tuple(),
            frame_size,
            render_size,
        ),
{
    Vp9FrameHeader {
        profile,
        show_existing_frame: None,
        frame_type,
        show_frame,
        error_resilient_mode,
        intra_only,
        refresh_frame_flags,
        bit_depth: color.bit_depth,
        color_space: color.color_space,
        color_range: color.color_range,
        subsampling_x: color.subsampling_x,
        subsampling_y: color.subsampling_y,
        frame_size,
        render_size,
    }
}

/// Reads the rest of a key frame header.
fn parse_key_frame(reader: &mut BitReader, profile: u8, show_frame: bool, error_resilient_mode: bool) -> (r:
    Result<Vp9FrameHeader, Error>)
    requires
        old(reader).wf(),
    ensures
        r is Ok <==> vp9_key_spec(old(reader).data(), old(reader).pos(), profile as nat, show_frame, error_resilient_mode) is Some,
        r matches Ok(h) ==> vp9_key_spec(old(reader).data(), old(reader).pos(), profile as nat, show_frame, error_resilient_mode) == Some(h),
        r matches Err(e) ==> e.kind == ErrorKind::InvalidInput,
{
    read_frame_sync_code(reader)?;
    let color = read_color_config(reader, profile)?;
    let (width, height) = read_frame_size(reader)?;
    let render_size = read_render_size(reader)?;
    Ok(
        make_header(
            profile,
            Vp9FrameType::Key,
            show_frame,
            error_resilient_mode,
            false,
            REFRESH_FRAME_FLAGS_ALL,
            &color,
            Vp9FrameSize::Resolved { width, height },
            render_size,
        ),
    )
}

/// Reads the rest of an intra-only frame header.
fn parse_intra_frame(reader: &mut BitReader, profile: u8, show_frame: bool, error_resilient_mode: bool) -> (r:
    Result<Vp9FrameHeader, Error>)
    requires
        old(reader).wf(),
    ensures
        r is Ok <==> vp9_intra_spec(old(reader).data(), old(reader).pos(), profile as nat, show_frame, error_resilient_mode) is Some,
        r matches Ok(h) ==> vp9_intra_spec(old(reader).data(), old(reader).pos(), profile as nat, show_frame, error_resilient_mode) == Some(h),
        r matches Err(e) ==> e.kind == ErrorKind::InvalidInput,
{
    read_frame_sync_code(reader)?;
    let color = if profile > 0 {
        read_color_config(reader, profile)?
    } else {
        ColorConfig { bit_depth: 8, color_space: 1, color_range: 0, subsampling_x: 1, subsampling_y: 1 }
    };
    let refresh_frame_flags = read_small(reader, 8)? as u8;
    let (width, height) = read_frame_size(reader)?;
    let render_size = read_render_size(reader)?;
    Ok(
        make_header(
            profile,
            Vp9FrameType::NonKey,
            show_frame,
            error_resilient_mode,
            true,
            refresh_frame_flags,
            &color,
            Vp9FrameSize::Resolved { width, height },
            render_size,
        ),
    )
}

/// Reads the rest of an inter frame header.
fn parse_inter_frame(reader: &mut BitReader, profile: u8, show_frame: bool, error_resilient_mode: bool) -> (r:
    Result<Vp9FrameHeader, Error>)
    requires
        old(reader).wf(),
    ensures
        r is Ok <==> vp9_inter_spec(old(reader).data(), old(reader).pos(), profile as nat, show_frame, error_resilient_mode) is Some,
        r matches Ok(h) ==> vp9_inter_spec(old(reader).data(), old(reader).pos(), profile as nat, show_frame, error_resilient_mode) == Some(h),
        r matches Err(e) ==> e.kind == ErrorKind::InvalidInput,
{
    let ghost s = reader.data();
    proof {
        crate::bits::lemma_two_pow_values();
    }
    let refresh_frame_flags = read_small(reader, 8)? as u8;
    let ghost p1 = reader.pos();
    proof {
        reader.lemma_wf();
    }
    let idx0 = match read_small(reader, 3) {
        Ok(v) => v as u8,
        Err(e) => return Err(e),
    };
    let _sign_bias0 = match read_flag(reader) {
        Ok(v) => v,
        Err(e) => return Err(e),
    };
    let idx1 = match read_small(reader, 3) {
        Ok(v) => v as u8,
        Err(e) => return Err(e),
    };
    let _sign_bias1 = match read_flag(reader) {
        Ok(v) => v,
        Err(e) => return Err(e),
    };
    let idx2 = match read_small(reader, 3) {
        Ok(v) => v as u8,
        Err(e) => return Err(e),
    };
    let _sign_bias2 = match read_flag(reader) {
        Ok(v) => v,
        Err(e) => return Err(e),
    };
    let ghost idx = vp9_ref_idx(s, p1);
    proof {
        assert(reader.pos() == p1 + 12);
        assert(idx[0] == idx0 && idx[1] == idx1 && idx[2] == idx2);
    }
    proof {
        reveal_with_fuel(vp9_found_spec, 4);
    }
    let mut found_slot: Option<u8> = None;
    if read_flag(reader)? != 0 {
        found_slot = Some(idx0);
    } else if read_flag(reader)? != 0 {
        found_slot = Some(idx1);
    } else if read_flag(reader)? != 0 {
        found_slot = Some(idx2);
    }
    let frame_size = match found_slot {
        Some(slot) => Vp9FrameSize::UsesRefFrames { ref_frame_slot: slot },
        None => {
            let (width, height) = read_frame_size(reader)?;
            Vp9FrameSize::Resolved { width, height }
        },
    };
    let render_size = read_render_size(reader)?;
    let none = ColorConfig { bit_depth: 0, color_space: 0, color_range: 0, subsampling_x: 0, subsampling_y: 0 };
    Ok(
        make_header(
            profile,
            Vp9FrameType::NonKey,
            show_frame,
            error_resilient_mode,
            false,
            refresh_frame_flags,
            &none,
            frame_size,
            render_size,
        ),
    )
}

/// Reads the rest of a non-key frame header.
fn parse_non_key_frame(reader: &mut BitReader, profile: u8, show_frame: bool, error_resilient_mode: bool) -> (r:
    Result<Vp9FrameHeader, Error>)
    requires
        old(reader).wf(),
    ensures
        r is Ok <==> vp9_non_key_spec(old(reader).data(), old(reader).pos(), profile as nat, show_frame, error_resilient_mode) is Some,
        r matches Ok(h) ==> vp9_non_key_spec(old(reader).data(), old(reader).pos(), profile as nat, show_frame, error_resilient_mode) == Some(h),
        r matches Err(e) ==> e.kind == ErrorKind::InvalidInput,
{
    proof {
        crate::bits::lemma_two_pow_values();
    }
    let intra_only = if !show_frame {
        read_flag(reader)? != 0
    } else {
        false
    };
    if !error_resilient_mode {
        let _reset_frame_context = reader.skip_bits(2)?;
    }
    if intra_only {
        parse_intra_frame(reader, profile, show_frame, error_resilient_mode)
    } else {
        parse_inter_frame(reader, profile, show_frame, error_resilient_mode)
    }
}

/// Parses a VP9 uncompressed frame header.
///
/// Fails on a `frame_marker` other than 2, a set reserved bit, a wrong
/// `frame_sync_code`, a colour configuration the profile does not allow,
/// and a header that ends early.
pub fn parse_frame_header(input: &[u8]) -> (r: Result<Vp9FrameHeader, Error>)
    ensures
        r is Ok <==> vp9_header_spec(input@) is Some,
        r matches Ok(h) ==> vp9_header_spec(input@) == Some(h),
        r matches Err(e) ==> e.kind == ErrorKind::InvalidInput,
{
    let mut reader = BitReader::new(input);
    let frame_marker = read_small(&mut reader, 2)?;
    if frame_marker as u64 != FRAME_MARKER {
        return Err(Error::invalid_input("VP9 frame_marker must be 2"));
    }
    let profile_low = read_flag(&mut reader)?;
    let profile_high = read_flag(&mut reader)?;
    let profile = profile_high * 2 + profile_low;
    if profile == 3 {
        let reserved_zero = read_flag(&mut reader)?;
        if reserved_zero != 0 {
            return Err(Error::invalid_input("VP9 profile 3 reserved_zero must be 0"));
        }
    }
    let show_existing_frame_bit = read_flag(&mut reader)?;
    if show_existing_frame_bit != 0 {
        let frame_to_show_map_idx = read_small(&mut reader, 3)?;
        proof {
            crate::bits::lemma_two_pow_values();
        }
        return Ok(
            Vp9FrameHeader {
                profile,
                show_existing_frame: Some(frame_to_show_map_idx as u8),
                frame_type: Vp9FrameType::NonKey,
                show_frame: true,
                error_resilient_mode: false,
                intra_only: false,
                refresh_frame_flags: REFRESH_FRAME_FLAGS_NONE,
                bit_depth: 0,
                color_space: 0,
                color_range: 0,
                subsampling_x: 0,
                subsampling_y: 0,
                frame_size: Vp9FrameSize::NotPresent,
                render_size: None,
            },
        );
    }
    let frame_type_bit = read_flag(&mut reader)?;
    let show_frame = read_flag(&mut reader)? != 0;
    let error_resilient_mode = read_flag(&mut reader)? != 0;
    if frame_type_bit == 0 {
        parse_key_frame(&mut reader, profile, show_frame, error_resilient_mode)
    } else {
        parse_non_key_frame(&mut reader, profile, show_frame, error_resilient_mode)
    }
}

} // verus!

verus! {

/// `chroma_subsampling` of `vpcC` for the subsampling pair: 1 (4:2:0), 2
/// (4:2:2), 3 (4:4:4); `None` for pairs `vpcC` cannot express.
pub open spec fn vp9_chroma_code(sx: u8, sy: u8) -> Option<u8> {
    if sx == 1 && sy == 1 {
        Some(1)
    } else if sx == 1 && sy == 0 {
        Some(2)
    } else if sx == 0 && sy == 0 {
        Some(3)
    } else {
        None
    }
}

/// `vpcC` `chroma_subsampling` (VP codec ISO media binding): 1 for 4:2:0
/// (both directions subsampled), 2 for 4:2:2 (horizontal only), 3 for 4:4:4
/// (neither); 4:4:0 and values above 1 have no code.
pub proof fn lemma_vp9_chroma_code_table(sx: u8, sy: u8)
    ensures
        sx == 1 && sy == 1 ==> vp9_chroma_code(sx, sy) == Some(1u8),
        sx == 1 && sy == 0 ==> vp9_chroma_code(sx, sy) == Some(2u8),
        sx == 0 && sy == 0 ==> vp9_chroma_code(sx, sy) == Some(3u8),
        vp9_chroma_code(sx, sy) is None <==> (sx > 1 || sy > 1 || (sx == 0 && sy == 1)),
{
}

/// Builds a `vp09` sample entry from a key or intra-only frame header and
/// the caller's settings.
///
/// Fails on headers without colour information (bit depth 0) or with a bit
/// depth other than 8 / 10 / 12, a colour range above 1, a profile above 3,
/// or subsampling that `vpcC` cannot express (4:4:0, values above 1).
pub fn build_vp09_box(header: &Vp9FrameHeader, config: &Vp9SampleEntryConfig) -> (r: Result<
    Vp09Box,
    Error,
>)
    ensures
        r matches Ok(b) ==> sample_entry_fits(SampleEntry::Vp09(b)) && sample_entry_ok(SampleEntry::Vp09(b)),
        r is Ok <==> ((header.bit_depth == 8 || header.bit_depth == 10 || header.bit_depth == 12)
            && header.color_range <= 1 && header.profile <= 3 && vp9_chroma_code(
            header.subsampling_x,
            header.subsampling_y,
        ) is Some),
        r matches Ok(b) ==> {
            &&& b.vpcc_box.profile == header.profile
            &&& b.vpcc_box.level == (match config.level {
                Some(l) => l,
                None => 0u8,
            })
            &&& b.vpcc_box.bit_depth == header.bit_depth
            &&& Some(b.vpcc_box.chroma_subsampling) == vp9_chroma_code(
                header.subsampling_x,
                header.subsampling_y,
            )
            &&& (header.subsampling_x == 1 && header.subsampling_y == 1 ==> b.vpcc_box.chroma_subsampling
                == 1)
            &&& (header.subsampling_x == 1 && header.subsampling_y == 0 ==> b.vpcc_box.chroma_subsampling
                == 2)
            &&& (header.subsampling_x == 0 && header.subsampling_y == 0 ==> b.vpcc_box.chroma_subsampling
                == 3)
            &&& b.vpcc_box.video_full_range_flag == header.color_range
            &&& b.vpcc_box.colour_primaries == config.colour_primaries
            &&& b.vpcc_box.transfer_characteristics == config.transfer_characteristics
            &&& b.vpcc_box.matrix_coefficients == config.matrix_coefficients
            &&& b.vpcc_box.codec_initialization_data@.len() == 0
            &&& is_default_visual(b.visual, DEFAULT_DATA_REFERENCE_INDEX, config.width, config.height)
            &&& b.unknown_boxes@.len() == 0
        },
        r matches Err(e) ==> e.kind == ErrorKind::InvalidInput,
{
    if header.bit_depth == 0 {
        return Err(
            Error::invalid_input(
                "VP9 build_vp09_box requires a key or intra_only frame header (bit_depth == 0 indicates inter frame or show_existing_frame)",
            ),
        );
    }
    if header.bit_depth != 8 && header.bit_depth != 10 && header.bit_depth != 12 {
        return Err(Error::invalid_input("VP9 bit_depth must be 8, 10, or 12"));
    }
    if header.color_range > 1 {
        return Err(Error::invalid_input("VP9 color_range must be 0 or 1"));
    }
    if header.profile > 3 {
        return Err(Error::invalid_input("VP9 profile must be 0..=3"));
    }
    let sx = header.subsampling_x;
    let sy = header.subsampling_y;
    let chroma_subsampling: u8 = if sx == 1 && sy == 1 {
        1
    } else if sx == 1 && sy == 0 {
        2
    } else if sx == 0 && sy == 0 {
        3
    } else if sx == 0 && sy == 1 {
        return Err(
            Error::invalid_input(
                "VP9 4:4:0 (subsampling 0,1) cannot be represented in VpccBox::chroma_subsampling",
            ),
        );
    } else {
        return Err(Error::invalid_input("VP9 subsampling_x / subsampling_y must be 0 or 1"));
    };
    let level = match config.level {
        Some(l) => l,
        None => 0,
    };
    let vpcc_box = VpccBox {
        profile: header.profile,
        level,
        bit_depth: header.bit_depth,
        chroma_subsampling,
        video_full_range_flag: header.color_range,
        colour_primaries: config.colour_primaries,
        transfer_characteristics: config.transfer_characteristics,
        matrix_coefficients: config.matrix_coefficients,
        codec_initialization_data: Vec::new(),
    };
    let visual = make_visual(DEFAULT_DATA_REFERENCE_INDEX, config.width, config.height);
    Ok(Vp09Box { visual, vpcc_box, unknown_boxes: Vec::new() })
}

} // verus!
