//! AV1 helpers: `leb128`, OBU framing, sequence header and frame header
//! prefix parsing, and `av01` / `av1C` construction.
use vstd::prelude::*;

use crate::bits::{bit_at, bit_len, bit_spec, bits_spec, bits_value, uvlc_spec, BitReader};
use crate::boxes::{is_default_visual, make_visual, Av01Box, Av1cBox, SampleEntry, DEFAULT_DATA_REFERENCE_INDEX};
use crate::sample_entries::{sample_entry_fits, sample_entry_ok};
use crate::error::{Error, ErrorKind};

verus! {

/// Where an OBU sequence comes from, which decides whether the size field
/// may be omitted.
#[derive(Debug, Clone, Copy, PartialEq, Eq, Hash, Structural)]
pub enum Av1ObuParseContext {
    /// `configOBUs` of `av1C`: every OBU has a size field.
    ConfigObus,
    /// A sample: the last OBU may omit its size field.
    Sample,
}

/// `obu_type`.
#[derive(Debug, Clone, Copy, PartialEq, Eq, Hash, Structural)]
pub enum Av1ObuType {
    /// Reserved values (0, 9..=14)
    Reserved(u8),
    /// Sequence header (1)
    SequenceHeader,
    /// Temporal delimiter (2)
    TemporalDelimiter,
    /// Frame header (3)
    FrameHeader,
    /// Tile group (4)
    TileGroup,
    /// Metadata (5)
    Metadata,
    /// Frame (6)
    Frame,
    /// Redundant frame header (7)
    RedundantFrameHeader,
    /// Tile list (8)
    TileList,
    /// Padding (15)
    Padding,
}

/// The [`Av1ObuType`] of the four bit value `v`.
pub open spec fn av1_obu_type_of(v: u8) -> Av1ObuType {
    if v == 1 {
        Av1ObuType::SequenceHeader
    } else if v == 2 {
        Av1ObuType::TemporalDelimiter
    } else if v == 3 {
        Av1ObuType::FrameHeader
    } else if v == 4 {
        Av1ObuType::TileGroup
    } else if v == 5 {
        Av1ObuType::Metadata
    } else if v == 6 {
        Av1ObuType::Frame
    } else if v == 7 {
        Av1ObuType::RedundantFrameHeader
    } else if v == 8 {
        Av1ObuType::TileList
    } else if v == 15 {
        Av1ObuType::Padding
    } else {
        Av1ObuType::Reserved(v)
    }
}

impl Av1ObuType {
    /// Maps the four bit `obu_type` to the type.
    fn from_header_value(value: u8) -> (r: Self)
        ensures
            r == av1_obu_type_of(value),
    {
        match value {
            1 => Self::SequenceHeader,
            2 => Self::TemporalDelimiter,
            3 => Self::FrameHeader,
            4 => Self::TileGroup,
            5 => Self::Metadata,
            6 => Self::Frame,
            7 => Self::RedundantFrameHeader,
            8 => Self::TileList,
            15 => Self::Padding,
            other => Self::Reserved(other),
        }
    }
}

/// One OBU, borrowing from the parsed input.
#[derive(Debug, Clone, Copy, PartialEq, Eq, Hash)]
pub struct Av1Obu<'a> {
    /// `obu_type`
    pub obu_type: Av1ObuType,
    /// `temporal_id` (0 without extension header)
    pub temporal_id: u8,
    /// `spatial_id` (0 without extension header)
    pub spatial_id: u8,
    /// Header bytes (1 or 2)
    pub header: &'a [u8],
    /// Payload bytes
    pub payload: &'a [u8],
    /// The whole OBU (header, size field and payload)
    pub obu: &'a [u8],
}

/// Fields of a sequence header OBU.
#[derive(Debug, Clone, Copy, PartialEq, Eq, Hash, Structural)]
pub struct Av1SequenceHeader {
    /// `seq_profile` (0..=2)
    pub seq_profile: u8,
    /// `seq_level_idx[0]`
    pub seq_level_idx_0: u8,
    /// `seq_tier[0]`
    pub seq_tier_0: u8,
    /// `high_bitdepth`
    pub high_bitdepth: bool,
    /// `twelve_bit`
    pub twelve_bit: bool,
    /// `mono_chrome`
    pub monochrome: bool,
    /// `subsampling_x`
    pub chroma_subsampling_x: u8,
    /// `subsampling_y`
    pub chroma_subsampling_y: u8,
    /// `chroma_sample_position`
    pub chroma_sample_position: u8,
    /// `max_frame_width_minus_1 + 1`
    pub max_frame_width: u32,
    /// `max_frame_height_minus_1 + 1`
    pub max_frame_height: u32,
    /// `reduced_still_picture_header`
    pub reduced_still_picture_header: bool,
}

/// The first fields of an uncompressed frame header.
#[derive(Debug, Clone, Copy, PartialEq, Eq, Hash)]
pub struct Av1FrameHeaderPrefix {
    /// `show_existing_frame`
    pub show_existing_frame: bool,
    /// `frame_type` (absent with `show_existing_frame`)
    pub frame_type: Option<Av1FrameType>,
    /// `show_frame` (absent with `show_existing_frame`)
    pub show_frame: Option<bool>,
}

/// `frame_type`.
#[derive(Debug, Clone, Copy, PartialEq, Eq, Hash, Structural)]
pub enum Av1FrameType {
    /// Key frame (0)
    Key,
    /// Inter frame (1)
    Inter,
    /// Intra-only frame (2)
    IntraOnly,
    /// Switch frame (3)
    Switch,
}

/// Settings of an `av01` entry that the stream does not fix.
#[derive(Debug, Clone, Copy, PartialEq, Eq, Hash)]
pub struct Av1SampleEntryConfig {
    /// `initial_presentation_delay_minus_one` (0..=15) when present.
    pub initial_presentation_delay_minus_one: Option<u8>,
}

/// `leb128()` from byte `i` on, with `acc` accumulated and `scale = 128^i`:
/// `(value, bytes read)`; `None` when the input ends, the eighth byte still
/// continues, or the value exceeds `u32::MAX`.
pub open spec fn leb128_from(s: Seq<u8>, i: nat, acc: nat, scale: nat) -> Option<(nat, nat)>
    decreases 8 - i,
{
    if i >= 8 || i >= s.len() {
        None
    } else {
        let acc2 = acc + ((s[i as int] % 128) as nat) * scale;
        if s[i as int] < 128 {
            if acc2 > u32::MAX {
                None
            } else {
                Some((acc2, i + 1))
            }
        } else {
            leb128_from(s, i + 1, acc2, scale * 128)
        }
    }
}

/// `leb128()` at the start of `s`.
pub open spec fn leb128_spec(s: Seq<u8>) -> Option<(nat, nat)> {
    leb128_from(s, 0, 0, 1)
}

/// Decodes a `leb128()` value: `(value, bytes read)`.
///
/// Fails when the input ends first, the eighth byte has its continuation
/// bit set, or the value exceeds `u32::MAX`.
pub fn decode_leb128(input: &[u8]) -> (r: Result<(u32, usize), Error>)
    ensures
        r is Ok <==> leb128_spec(input@) is Some,
        r matches Ok((v, n)) ==> leb128_spec(input@) == Some((v as nat, n as nat)),
        r matches Ok((_, n)) ==> 1 <= n <= 8 && n <= input@.len(),
        r matches Err(e) ==> e.kind == ErrorKind::InvalidInput,
{
    let mut value: u64 = 0;
    let mut scale: u64 = 1;
    let mut i: usize = 0;
    while i < 8
        invariant
            i <= 8,
            scale == crate::bits::two_pow(7 * i as nat),
            value < scale,
            leb128_spec(input@) == leb128_from(input@, i as nat, value as nat, scale as nat),
        decreases 8 - i,
    {
        if i >= input.len() {
            return Err(Error::invalid_input("AV1 leb128 is truncated"));
        }
        let byte = input[i];
        proof {
            crate::bits::lemma_two_pow_monotone(7 * i as nat, 49);
            lemma_two_pow_49();
            assert(value + (byte % 128) * scale < 128 * scale) by (nonlinear_arith)
                requires
                    value < scale,
                    byte % 128 < 128,
            ;
            assert(crate::bits::two_pow(7 * (i + 1) as nat) == 128 * scale) by {
                lemma_two_pow_add7(7 * i as nat);
            }
        }
        value = value + (byte % 128) as u64 * scale;
        if byte < 0x80 {
            if value > 0xffff_ffff {
                return Err(Error::invalid_input("AV1 leb128 value exceeds (1 << 32) - 1"));
            }
            return Ok((value as u32, i + 1));
        }
        scale = scale * 128;
        i += 1;
    }
    Err(Error::invalid_input("AV1 leb128 continuation bit must be 0 on the 8th byte"))
}

proof fn lemma_two_pow_add7(n: nat)
    ensures
        crate::bits::two_pow(n + 7) == 128 * crate::bits::two_pow(n),
{
    reveal_with_fuel(crate::bits::two_pow, 8);
}

proof fn lemma_two_pow_49()
    ensures
        crate::bits::two_pow(49) == 0x2_0000_0000_0000,
{
    reveal_with_fuel(crate::bits::two_pow, 50);
}

} // verus!

verus! {

/// The OBU at the start of `s`: `(obu_type, temporal_id, spatial_id,
/// header length, payload start, end)`, or `None` when the header is
/// invalid (forbidden or reserved bits set, truncated extension, tile
/// list, sequence header with extension), the size field is bad or exceeds
/// the input, or the size field is missing in `configOBUs`. Without a size
/// field the OBU runs to the end of `s`.
pub open spec fn av1_obu_spec(s: Seq<u8>, ctx: Av1ObuParseContext) -> Option<(Av1ObuType, u8, u8, nat, nat, nat)> {
    if s.len() == 0 {
        None
    } else {
        let h = s[0];
        let t = av1_obu_type_of(((h / 8) % 16) as u8);
        let ext = (h / 4) % 2 == 1;
        let has_size = (h / 2) % 2 == 1;
        if h >= 128 || h % 2 != 0 || (ext && (s.len() < 2 || s[1] % 8 != 0))
            || t == Av1ObuType::TileList || (t == Av1ObuType::SequenceHeader && ext) {
            None
        } else {
            let hl: nat = if ext { 2 } else { 1 };
            let tid: u8 = if ext { (s[1] / 32) as u8 } else { 0 };
            let sid: u8 = if ext { ((s[1] / 8) % 4) as u8 } else { 0 };
            if has_size {
                match leb128_spec(s.subrange(hl as int, s.len() as int)) {
                    None => None,
                    Some((size, ll)) => if hl + ll + size > s.len() {
                        None
                    } else {
                        Some((t, tid, sid, hl, hl + ll, hl + ll + size))
                    },
                }
            } else if ctx == Av1ObuParseContext::ConfigObus {
                None
            } else {
                Some((t, tid, sid, hl, hl, s.len()))
            }
        }
    }
}

/// `o` is the OBU `spec` of `s` found at `base`: its slices are the header,
/// payload and whole OBU of `s`.
pub open spec fn av1_obu_matches(o: Av1Obu, s: Seq<u8>, base: int, spec: (Av1ObuType, u8, u8, nat, nat, nat)) -> bool {
    let (t, tid, sid, hl, ps, end) = spec;
    &&& o.obu_type == t
    &&& o.temporal_id == tid
    &&& o.spatial_id == sid
    &&& o.header@ == s.subrange(base, base + hl)
    &&& o.payload@ == s.subrange(base + ps, base + end)
    &&& o.obu@ == s.subrange(base, base + end)
}

/// Parses the OBU at the start of `remaining`.
fn parse_one_obu(remaining: &[u8], ctx: Av1ObuParseContext) -> (r: Result<Av1Obu<'_>, Error>)
    ensures
        r is Ok <==> av1_obu_spec(remaining@, ctx) is Some,
        r matches Ok(o) ==> av1_obu_matches(o, remaining@, 0, av1_obu_spec(remaining@, ctx).unwrap()),
        r matches Err(e) ==> e.kind == ErrorKind::InvalidInput,
{
    if remaining.len() == 0 {
        return Err(Error::invalid_input("AV1 OBU header is truncated"));
    }
    let header0 = remaining[0];
    let forbidden = (header0 >> 7) & 1;
    let obu_type_value = (header0 >> 3) & 0x0F;
    let extension_flag = (header0 >> 2) & 1;
    let has_size_field = (header0 >> 1) & 1;
    let reserved = header0 & 1;
    proof {
        assert((header0 >> 7u8) & 1 == header0 / 128) by (bit_vector);
        assert((header0 >> 3u8) & 0x0f == (header0 / 8) % 16) by (bit_vector);
        assert((header0 >> 2u8) & 1 == (header0 / 4) % 2) by (bit_vector);
        assert((header0 >> 1u8) & 1 == (header0 / 2) % 2) by (bit_vector);
        assert(header0 & 1 == header0 % 2) by (bit_vector);
    }
    if forbidden != 0 {
        return Err(Error::invalid_input("AV1 obu_forbidden_bit must be 0"));
    }
    if reserved != 0 {
        return Err(Error::invalid_input("AV1 obu_reserved_1bit must be 0"));
    }
    let mut header_len: usize = 1;
    let mut temporal_id: u8 = 0;
    let mut spatial_id: u8 = 0;
    if extension_flag == 1 {
        if remaining.len() < 2 {
            return Err(Error::invalid_input("AV1 obu_extension_header is truncated"));
        }
        let ext = remaining[1];
        proof {
            assert(ext >> 5u8 == ext / 32) by (bit_vector);
            assert((ext >> 3u8) & 0x03 == (ext / 8) % 4) by (bit_vector);
            assert(ext & 0x07 == ext % 8) by (bit_vector);
        }
        temporal_id = ext >> 5;
        spatial_id = (ext >> 3) & 0x03;
        if ext & 0x07 != 0 {
            return Err(Error::invalid_input("AV1 extension_header_reserved_3bits must be 0"));
        }
        header_len = 2;
    }
    let obu_type = Av1ObuType::from_header_value(obu_type_value);
    if obu_type == Av1ObuType::TileList {
        return Err(
            Error::invalid_input(
                "AV1 OBU_TILE_LIST is not supported by AV1 Codec ISO Media File Format Binding",
            ),
        );
    }
    if obu_type == Av1ObuType::SequenceHeader && extension_flag == 1 {
        return Err(
            Error::invalid_input("AV1 Sequence Header OBU must have obu_extension_flag equal to 0"),
        );
    }
    let len = remaining.len();
    if has_size_field == 1 {
        let (size, leb_len) = decode_leb128(&remaining[header_len..len])?;
        let payload_start = header_len + leb_len;
        let payload_end = match payload_start.checked_add(size as usize) {
            Some(v) => v,
            None => return Err(Error::invalid_input("AV1 obu_size overflows usize")),
        };
        if payload_end > len {
            return Err(Error::invalid_input("AV1 obu_size exceeds remaining input bytes"));
        }
        Ok(
            Av1Obu {
                obu_type,
                temporal_id,
                spatial_id,
                header: &remaining[0..header_len],
                payload: &remaining[payload_start..payload_end],
                obu: &remaining[0..payload_end],
            },
        )
    } else {
        match ctx {
            Av1ObuParseContext::ConfigObus => {
                Err(
                    Error::invalid_input(
                        "AV1 configOBUs requires obu_has_size_field = 1 for every OBU",
                    ),
                )
            },
            Av1ObuParseContext::Sample => {
                Ok(
                    Av1Obu {
                        obu_type,
                        temporal_id,
                        spatial_id,
                        header: &remaining[0..header_len],
                        payload: &remaining[header_len..len],
                        obu: &remaining[0..len],
                    },
                )
            },
        }
    }
}

/// The OBUs of `s` from `pos` on, each as `(spec, start)`.
pub open spec fn av1_obus_from(s: Seq<u8>, ctx: Av1ObuParseContext, pos: nat) -> Option<
    Seq<((Av1ObuType, u8, u8, nat, nat, nat), nat)>,
>
    decreases s.len() - pos,
{
    if pos >= s.len() {
        Some(Seq::empty())
    } else {
        match av1_obu_spec(s.subrange(pos as int, s.len() as int), ctx) {
            None => None,
            Some(o) => if o.5 == 0 {
                None
            } else {
                match av1_obus_from(s, ctx, pos + o.5) {
                    None => None,
                    Some(rest) => Some(seq![(o, pos)] + rest),
                }
            },
        }
    }
}

/// The OBUs of `s`: none for empty `configOBUs`, `None` for an empty sample.
pub open spec fn av1_obus_spec(s: Seq<u8>, ctx: Av1ObuParseContext) -> Option<
    Seq<((Av1ObuType, u8, u8, nat, nat, nat), nat)>,
> {
    if s.len() == 0 && ctx == Av1ObuParseContext::Sample {
        None
    } else {
        av1_obus_from(s, ctx, 0)
    }
}

/// `v` are the OBUs `specs` of `s`.
pub open spec fn av1_obus_match(v: Seq<Av1Obu>, s: Seq<u8>, specs: Seq<((Av1ObuType, u8, u8, nat, nat, nat), nat)>) -> bool {
    &&& v.len() == specs.len()
    &&& forall|k: int|
        0 <= k < v.len() ==> av1_obu_matches(#[trigger] v[k], s, specs[k].1 as int, specs[k].0)
}

/// Splits an OBU sequence (low overhead bitstream format) into its OBUs.
///
/// Empty `configOBUs` give no OBUs; an empty sample is rejected. Fails
/// where an OBU fails [`av1_obu_spec`]'s checks.
pub fn parse_obus(input: &[u8], ctx: Av1ObuParseContext) -> (r: Result<Vec<Av1Obu<'_>>, Error>)
    ensures
        r is Ok <==> av1_obus_spec(input@, ctx) is Some,
        r matches Ok(v) ==> av1_obus_match(v@, input@, av1_obus_spec(input@, ctx).unwrap()),
        r matches Err(e) ==> e.kind == ErrorKind::InvalidInput,
{
    let len = input.len();
    if len == 0 {
        return match ctx {
            Av1ObuParseContext::ConfigObus => Ok(Vec::new()),
            Av1ObuParseContext::Sample => Err(
                Error::invalid_input("AV1 sample must contain a Temporal Unit (empty input is rejected)"),
            ),
        };
    }
    let ghost s = input@;
    let ghost mut done: Seq<((Av1ObuType, u8, u8, nat, nat, nat), nat)> = Seq::empty();
    let mut obus: Vec<Av1Obu<'_>> = Vec::new();
    let mut pos: usize = 0;
    while pos < len
        invariant
            len == input@.len(),
            s == input@,
            pos <= len,
            done.len() == obus@.len(),
            av1_obus_from(s, ctx, 0) == (match av1_obus_from(s, ctx, pos as nat) {
                Some(rest) => Some(done + rest),
                None => None,
            }),
            forall|k: int|
                0 <= k < obus@.len() ==> av1_obu_matches(#[trigger] obus@[k], s, done[k].1 as int, done[k].0),
        decreases len - pos,
    {
        let obu = parse_one_obu(&input[pos..len], ctx)?;
        let consumed = obu.obu.len();
        let ghost o = av1_obu_spec(s.subrange(pos as int, len as int), ctx).unwrap();
        proof {
            assert(s.subrange(pos as int, len as int) =~= input@.subrange(pos as int, len as int));
            assert(o.5 == consumed);
            assert(av1_obu_matches(obu, s, pos as int, o)) by {
                assert(obu.header@ =~= s.subrange(pos as int, pos + o.3));
                assert(obu.payload@ =~= s.subrange(pos + o.4, pos + o.5));
                assert(obu.obu@ =~= s.subrange(pos as int, pos + o.5));
            }
            match av1_obus_from(s, ctx, (pos + consumed) as nat) {
                Some(next) => {
                    assert(done + (seq![(o, pos as nat)] + next) =~= done.push((o, pos as nat)) + next);
                },
                None => {},
            }
        }
        obus.push(obu);
        proof {
            done = done.push((o, pos as nat));
        }
        pos = pos + consumed;
    }
    proof {
        assert(done + Seq::<((Av1ObuType, u8, u8, nat, nat, nat), nat)>::empty() =~= done);
    }
    Ok(obus)
}


/// Whether the OBUs `specs` follow one another from `pos` and end exactly
/// at the end of `s`, each at least one byte long.
pub open spec fn av1_obus_tile(s: Seq<u8>, specs: Seq<((Av1ObuType, u8, u8, nat, nat, nat), nat)>, pos: nat) -> bool {
    &&& specs.len() == 0 ==> pos >= s.len()
    &&& specs.len() > 0 ==> specs[0].1 == pos && specs.last().1 + specs.last().0.5 == s.len()
    &&& forall|k: int| 0 <= k < specs.len() ==> 0 < (#[trigger] specs[k]).0.5 && specs[k].1 + specs[k].0.5 <= s.len()
    &&& forall|k: int| 0 <= k < specs.len() - 1 ==> (#[trigger] specs[k + 1]).1 == specs[k].1 + specs[k].0.5
}

proof fn lemma_obus_from_tile(s: Seq<u8>, ctx: Av1ObuParseContext, pos: nat)
    requires
        av1_obus_from(s, ctx, pos) is Some,
    ensures
        av1_obus_tile(s, av1_obus_from(s, ctx, pos).unwrap(), pos),
    decreases s.len() - pos,
{
    if pos < s.len() {
        let o = av1_obu_spec(s.subrange(pos as int, s.len() as int), ctx).unwrap();
        lemma_obus_from_tile(s, ctx, pos + o.5);
        let rest = av1_obus_from(s, ctx, pos + o.5).unwrap();
        let all = seq![(o, pos)] + rest;
        assert(all == av1_obus_from(s, ctx, pos).unwrap());
        assert forall|k: int| 0 <= k < all.len() implies 0 < (#[trigger] all[k]).0.5 && all[k].1 + all[k].0.5 <= s.len() by {
            if k > 0 {
                assert(all[k] == rest[k - 1]);
            }
        }
        assert forall|k: int| 0 <= k < all.len() - 1 implies (#[trigger] all[k + 1]).1 == all[k].1 + all[k].0.5 by {
            assert(all[k + 1] == rest[k]);
            if k > 0 {
                assert(all[k] == rest[k - 1]);
                assert(rest[(k - 1) + 1].1 == rest[k - 1].1 + rest[k - 1].0.5);
            } else {
                assert(rest[0].1 == pos + o.5);
            }
        }
        if rest.len() > 0 {
            assert(all.last() == rest.last());
        }
    }
}

/// The OBUs that [`parse_obus`] finds follow one another without gaps and
/// together cover the whole input.
pub proof fn lemma_obus_tile_input(s: Seq<u8>, ctx: Av1ObuParseContext)
    requires
        av1_obus_spec(s, ctx) is Some,
    ensures
        av1_obus_tile(s, av1_obus_spec(s, ctx).unwrap(), 0),
{
    lemma_obus_from_tile(s, ctx, 0);
}

/// The bytes of the OBUs, one after another.
pub open spec fn obus_concat(v: Seq<Av1Obu>) -> Seq<u8>
    decreases v.len(),
{
    if v.len() == 0 {
        Seq::empty()
    } else {
        obus_concat(v.drop_last()) + v.last().obu@
    }
}

proof fn lemma_obus_concat_prefix(
    v: Seq<Av1Obu>,
    s: Seq<u8>,
    specs: Seq<((Av1ObuType, u8, u8, nat, nat, nat), nat)>,
    k: int,
)
    requires
        av1_obus_match(v, s, specs),
        av1_obus_tile(s, specs, 0),
        0 <= k <= v.len(),
    ensures
        obus_concat(v.take(k)) == s.subrange(
            0,
            if k == 0 {
                0
            } else {
                (specs[k - 1].1 + specs[k - 1].0.5) as int
            },
        ),
    decreases k,
{
    if k == 0 {
        assert(obus_concat(v.take(0)) =~= Seq::<u8>::empty());
        assert(s.subrange(0, 0) =~= Seq::<u8>::empty());
    } else {
        lemma_obus_concat_prefix(v, s, specs, k - 1);
        assert(v.take(k).drop_last() =~= v.take(k - 1));
        assert(v.take(k).last() == v[k - 1]);
        let sp = specs[k - 1];
        assert(av1_obu_matches(v[k - 1], s, sp.1 as int, sp.0));
        assert(0 < sp.0.5 && sp.1 + sp.0.5 <= s.len());
        if k > 1 {
            let j = k - 2;
            assert(0 <= j < specs.len() - 1);
            assert(specs[j + 1].1 == specs[j].1 + specs[j].0.5);
            assert(specs[j + 1] == specs[k - 1]);
        } else {
            assert(specs[0].1 == 0);
        }
        assert(s.subrange(0, (sp.1 + sp.0.5) as int) =~= s.subrange(0, sp.1 as int) + s.subrange(
            sp.1 as int,
            (sp.1 + sp.0.5) as int,
        ));
    }
}

/// The OBUs that [`parse_obus`] returns, one after another, are the input.
pub proof fn lemma_parsed_obus_tile_input(s: Seq<u8>, ctx: Av1ObuParseContext, v: Seq<Av1Obu>)
    requires
        av1_obus_spec(s, ctx) is Some,
        av1_obus_match(v, s, av1_obus_spec(s, ctx).unwrap()),
    ensures
        obus_concat(v) == s,
{
    let specs = av1_obus_spec(s, ctx).unwrap();
    lemma_obus_from_tile(s, ctx, 0);
    lemma_obus_tile_input(s, ctx);
    lemma_obus_concat_prefix(v, s, specs, v.len() as int);
    assert(v.take(v.len() as int) =~= v);
    assert(s.subrange(0, s.len() as int) =~= s);
}

} // verus!

verus! {

/// Position after `timing_info()` at `p`.
pub open spec fn av1_timing_spec(r: Seq<u8>, p: int) -> Option<int> {
    if p + 65 > bit_len(r) {
        None
    } else if bit_at(r, p + 64) == 0 {
        Some(p + 65)
    } else {
        match uvlc_spec(r, p + 65) {
            None => None,
            Some((_, q)) => Some(q),
        }
    }
}

/// `decoder_model_info()` at `p`: `(buffer_delay_length_minus_1, position after)`.
pub open spec fn av1_decoder_model_spec(r: Seq<u8>, p: int) -> Option<(nat, int)> {
    if p + 47 > bit_len(r) {
        None
    } else {
        Some((bits_value(r, p, 5), p + 47))
    }
}

/// One operating point at `p`: `(seq_level_idx, seq_tier, position after)`.
pub open spec fn av1_op_spec(r: Seq<u8>, p: int, dmi: bool, bdl: nat, idd: bool) -> Option<(nat, nat, int)> {
    if p + 17 > bit_len(r) {
        None
    } else {
        let level = bits_value(r, p + 12, 5);
        match (if level > 7 {
            match bit_spec(r, p + 17) {
                None => None,
                Some((b, q)) => Some((b as nat, q)),
            }
        } else {
            Some((0nat, p + 17))
        }) {
            None => None,
            Some((tier, q1)) => match (if dmi {
                match bit_spec(r, q1) {
                    None => None,
                    Some((present, q2)) => if present != 0 {
                        if q2 + 2 * (bdl + 1) + 1 > bit_len(r) {
                            None
                        } else {
                            Some(q2 + 2 * (bdl + 1) + 1)
                        }
                    } else {
                        Some(q2)
                    },
                }
            } else {
                Some(q1)
            }) {
                None => None,
                Some(q3) => match (if idd {
                    match bit_spec(r, q3) {
                        None => None,
                        Some((present, q4)) => if present != 0 {
                            if q4 + 4 > bit_len(r) {
                                None
                            } else {
                                Some(q4 + 4)
                            }
                        } else {
                            Some(q4)
                        },
                    }
                } else {
                    Some(q3)
                }) {
                    None => None,
                    Some(q5) => Some((level, tier, q5)),
                },
            },
        }
    }
}

/// Position after operating points `i ..= cnt`.
pub open spec fn av1_ops_spec(r: Seq<u8>, p: int, i: nat, cnt: nat, dmi: bool, bdl: nat, idd: bool) -> Option<int>
    decreases cnt + 1 - i,
{
    if i > cnt {
        Some(p)
    } else {
        match av1_op_spec(r, p, dmi, bdl, idd) {
            None => None,
            Some((_, _, q)) => av1_ops_spec(r, q, i + 1, cnt, dmi, bdl, idd),
        }
    }
}

/// The timing, decoder model and operating point syntax of a sequence
/// header without `reduced_still_picture_header`:
/// `(seq_level_idx[0], seq_tier[0], position after)`.
pub open spec fn av1_seq_ops_spec(r: Seq<u8>, p: int) -> Option<(nat, nat, int)> {
    match bit_spec(r, p) {
        None => None,
        Some((tip, p1)) => match (if tip != 0 {
            match av1_timing_spec(r, p1) {
                None => None,
                Some(q) => match bit_spec(r, q) {
                    None => None,
                    Some((dmip, q2)) => if dmip != 0 {
                        match av1_decoder_model_spec(r, q2) {
                            None => None,
                            Some((bdl, q3)) => Some((true, bdl, q3)),
                        }
                    } else {
                        Some((false, 0nat, q2))
                    },
                },
            }
        } else {
            Some((false, 0nat, p1))
        }) {
            None => None,
            Some((dmi, bdl, p2)) => match bit_spec(r, p2) {
                None => None,
                Some((idd, p3)) => match bits_spec(r, p3, 5) {
                    None => None,
                    Some((cnt, p4)) => match av1_op_spec(r, p4, dmi, bdl, idd != 0) {
                        None => None,
                        Some((level, tier, p5)) => match av1_ops_spec(r, p5, 1, cnt, dmi, bdl, idd != 0) {
                            None => None,
                            Some(p6) => Some((level, tier, p6)),
                        },
                    },
                },
            },
        },
    }
}

/// `(max_frame_width, max_frame_height, position after)` at `p`.
pub open spec fn av1_frame_dims_spec(r: Seq<u8>, p: int) -> Option<(u32, u32, int)> {
    if p + 8 > bit_len(r) {
        None
    } else {
        let fw = bits_value(r, p, 4) + 1;
        let fh = bits_value(r, p + 4, 4) + 1;
        if p + 8 + fw + fh > bit_len(r) {
            None
        } else {
            Some(
                (
                    (bits_value(r, p + 8, fw as nat) + 1) as u32,
                    (bits_value(r, p + 8 + fw, fh as nat) + 1) as u32,
                    p + 8 + fw + fh,
                ),
            )
        }
    }
}

/// Position after the coding tool flags from `enable_interintra_compound`
/// through `order_hint_bits_minus_1`.
pub open spec fn av1_seq_tools_spec(r: Seq<u8>, p: int) -> Option<int> {
    if p + 5 > bit_len(r) {
        None
    } else {
        let oh = bit_at(r, p + 4) != 0;
        let p2 = if oh { p + 7 } else { p + 5 };
        if p2 > bit_len(r) {
            None
        } else {
            match bit_spec(r, p2) {
                None => None,
                Some((choose, p3)) => match (if choose != 0 {
                    Some((2nat, p3))
                } else {
                    match bit_spec(r, p3) {
                        None => None,
                        Some((b, q)) => Some((b as nat, q)),
                    }
                }) {
                    None => None,
                    Some((force, p4)) => match (if force > 0 {
                        match bit_spec(r, p4) {
                            None => None,
                            Some((cim, q)) => if cim == 0 {
                                if q + 1 > bit_len(r) {
                                    None
                                } else {
                                    Some(q + 1)
                                }
                            } else {
                                Some(q)
                            },
                        }
                    } else {
                        Some(p4)
                    }) {
                        None => None,
                        Some(p5) => if oh {
                            if p5 + 3 > bit_len(r) {
                                None
                            } else {
                                Some(p5 + 3)
                            }
                        } else {
                            Some(p5)
                        },
                    },
                },
            }
        }
    }
}

/// Position after the flags between the frame size and `color_config()`.
pub open spec fn av1_seq_flags_spec(r: Seq<u8>, p: int, reduced: bool) -> Option<int> {
    match (if !reduced {
        match bit_spec(r, p) {
            None => None,
            Some((fid, q)) => if fid != 0 {
                if q + 7 > bit_len(r) {
                    None
                } else {
                    Some(q + 7)
                }
            } else {
                Some(q)
            },
        }
    } else {
        Some(p)
    }) {
        None => None,
        Some(p1) => if p1 + 3 > bit_len(r) {
            None
        } else {
            match (if !reduced {
                av1_seq_tools_spec(r, p1 + 3)
            } else {
                Some(p1 + 3)
            }) {
                None => None,
                Some(p3) => if p3 + 3 > bit_len(r) {
                    None
                } else {
                    Some(p3 + 3)
                },
            }
        }
    }
}

/// Colour configuration `(high_bitdepth, twelve_bit, mono_chrome,
/// subsampling_x, subsampling_y, chroma_sample_position)`.
pub type Av1Color = (bool, bool, bool, u8, u8, u8);

/// The subsampling of a non-monochrome `color_config()` after the colour
/// description, and the position after it.
pub open spec fn av1_subsampling_spec(r: Seq<u8>, p: int, profile: nat, bd: nat, cp: nat, tc: nat, mc: nat) -> Option<(u8, u8, int)> {
    if cp == 1 && tc == 13 && mc == 0 {
        Some((0u8, 0u8, p))
    } else {
        match bit_spec(r, p) {
            None => None,
            Some((_, q1)) => if profile == 0 {
                Some((1u8, 1u8, q1))
            } else if profile == 1 {
                Some((0u8, 0u8, q1))
            } else if bd == 12 {
                match bit_spec(r, q1) {
                    None => None,
                    Some((sx, q2)) => if sx == 1 {
                        match bit_spec(r, q2) {
                            None => None,
                            Some((sy, q3)) => Some((sx, sy, q3)),
                        }
                    } else {
                        Some((sx, 0u8, q2))
                    },
                }
            } else {
                Some((1u8, 0u8, q1))
            },
        }
    }
}

/// The first part of `color_config()` at `p`: `(high_bitdepth, twelve_bit,
/// BitDepth, mono_chrome, color_primaries, transfer_characteristics,
/// matrix_coefficients, position after)`.
pub open spec fn av1_color_head_spec(r: Seq<u8>, p: int, profile: nat) -> Option<(bool, bool, nat, bool, nat, nat, nat, int)> {
    match bit_spec(r, p) {
        None => None,
        Some((hbd, p1)) => match (if profile == 2 && hbd != 0 {
            match bit_spec(r, p1) {
                None => None,
                Some((tb, q)) => Some((tb != 0, q)),
            }
        } else {
            Some((false, p1))
        }) {
            None => None,
            Some((twelve, p2)) => {
                let bd: nat = if profile == 2 && hbd != 0 {
                    if twelve { 12 } else { 10 }
                } else if hbd != 0 {
                    10
                } else {
                    8
                };
                match (if profile == 1 {
                    Some((false, p2))
                } else {
                    match bit_spec(r, p2) {
                        None => None,
                        Some((m, q)) => Some((m != 0, q)),
                    }
                }) {
                    None => None,
                    Some((mono, p3)) => match bit_spec(r, p3) {
                        None => None,
                        Some((cdp, p4)) => if cdp != 0 {
                            if p4 + 24 > bit_len(r) {
                                None
                            } else {
                                Some(
                                    (
                                        hbd != 0,
                                        twelve,
                                        bd,
                                        mono,
                                        bits_value(r, p4, 8),
                                        bits_value(r, p4 + 8, 8),
                                        bits_value(r, p4 + 16, 8),
                                        p4 + 24,
                                    ),
                                )
                            }
                        } else {
                            Some((hbd != 0, twelve, bd, mono, 2nat, 2nat, 2nat, p4))
                        },
                    },
                }
            },
        },
    }
}

/// The rest of `color_config()` at `p`, given its first part.
pub open spec fn av1_color_tail_spec(
    r: Seq<u8>,
    p: int,
    profile: nat,
    hbd: bool,
    twelve: bool,
    bd: nat,
    mono: bool,
    cp: nat,
    tc: nat,
    mc: nat,
) -> Option<(Av1Color, int)> {
    if mono {
        match bit_spec(r, p) {
            None => None,
            Some((_, q)) => Some(((hbd, twelve, true, 1u8, 1u8, 0u8), q)),
        }
    } else {
        match av1_subsampling_spec(r, p, profile, bd, cp, tc, mc) {
            None => None,
            Some((sx, sy, p6)) => match (if sx == 1 && sy == 1 {
                match bits_spec(r, p6, 2) {
                    None => None,
                    Some((c, q)) => Some((c as u8, q)),
                }
            } else {
                Some((0u8, p6))
            }) {
                None => None,
                Some((csp, p7)) => match bit_spec(r, p7) {
                    None => None,
                    Some((_, p8)) => Some(((hbd, twelve, false, sx, sy, csp), p8)),
                },
            },
        }
    }
}

/// `color_config()` at `p` for `profile` (0..=2).
pub open spec fn av1_color_spec(r: Seq<u8>, p: int, profile: nat) -> Option<(Av1Color, int)> {
    match av1_color_head_spec(r, p, profile) {
        None => None,
        Some((hbd, twelve, bd, mono, cp, tc, mc, q)) => av1_color_tail_spec(
            r,
            q,
            profile,
            hbd,
            twelve,
            bd,
            mono,
            cp,
            tc,
            mc,
        ),
    }
}

/// The sequence header that the OBU payload `r` describes.
pub open spec fn av1_seq_spec(r: Seq<u8>) -> Option<Av1SequenceHeader> {
    let profile = bits_value(r, 0, 3);
    let still = bit_at(r, 3) != 0;
    let reduced = bit_at(r, 4) != 0;
    if bit_len(r) < 5 || profile > 2 || (reduced && !still) {
        None
    } else {
        match (if reduced {
            match bits_spec(r, 5, 5) {
                None => None,
                Some((l, q)) => Some((l, 0nat, q)),
            }
        } else {
            av1_seq_ops_spec(r, 5)
        }) {
            None => None,
            Some((level, tier, p1)) => match av1_frame_dims_spec(r, p1) {
                None => None,
                Some((w, h, p2)) => match av1_seq_flags_spec(r, p2, reduced) {
                    None => None,
                    Some(p3) => match av1_color_spec(r, p3, profile) {
                        None => None,
                        Some((c, p4)) => if p4 + 1 > bit_len(r) {
                            None
                        } else {
                            Some(
                                Av1SequenceHeader {
                                    seq_profile: profile as u8,
                                    seq_level_idx_0: level as u8,
                                    seq_tier_0: tier as u8,
                                    high_bitdepth: c.0,
                                    twelve_bit: c.1,
                                    monochrome: c.2,
                                    chroma_subsampling_x: c.3,
                                    chroma_subsampling_y: c.4,
                                    chroma_sample_position: c.5,
                                    max_frame_width: w,
                                    max_frame_height: h,
                                    reduced_still_picture_header: reduced,
                                },
                            )
                        },
                    },
                },
            },
        }
    }
}

} // verus!

verus! {

/// Skips `timing_info()`.
fn skip_timing_info(reader: &mut BitReader) -> (r: Result<(), Error>)
    requires
        old(reader).wf(),
    ensures
        final(reader).wf(),
        final(reader).data() == old(reader).data(),
        r is Ok <==> av1_timing_spec(old(reader).data(), old(reader).pos()) is Some,
        r is Ok ==> av1_timing_spec(old(reader).data(), old(reader).pos()) == Some(final(reader).pos()),
        r matches Err(e) ==> e.kind == ErrorKind::InvalidInput,
{
    let ghost p = reader.pos();
    let ghost s = reader.data();
    match reader.skip_bits(64) {
        Ok(()) => {},
        Err(e) => return Err(e),
    }
    let equal_picture_interval = match reader.read_flag() {
        Ok(v) => v,
        Err(e) => return Err(e),
    };
    proof {
        assert(bit_at(s, p + 64) == equal_picture_interval);
    }
    if equal_picture_interval != 0 {
        let _num_ticks_per_picture_minus_1 = reader.read_uvlc()?;
    }
    Ok(())
}

/// Reads `decoder_model_info()`, returning `buffer_delay_length_minus_1`.
fn read_decoder_model_info(reader: &mut BitReader) -> (r: Result<u32, Error>)
    requires
        old(reader).wf(),
    ensures
        final(reader).wf(),
        final(reader).data() == old(reader).data(),
        r is Ok <==> av1_decoder_model_spec(old(reader).data(), old(reader).pos()) is Some,
        r matches Ok(v) ==> av1_decoder_model_spec(old(reader).data(), old(reader).pos()) == Some(
            (v as nat, final(reader).pos()),
        ) && v < 32,
        r matches Err(e) ==> e.kind == ErrorKind::InvalidInput,
{
    let ghost p = reader.pos();
    proof {
        crate::bits::lemma_two_pow_values();
    }
    let buffer_delay_length_minus_1 = match reader.read_field(5) {
        Ok(v) => v,
        Err(e) => return Err(e),
    };
    match reader.skip_bits(42) {
        Ok(()) => {},
        Err(e) => return Err(e),
    }
    Ok(buffer_delay_length_minus_1)
}

/// Reads one operating point, returning its level and tier.
fn read_operating_point(reader: &mut BitReader, dmi: bool, bdl: u32, idd: bool) -> (r: Result<(u8, u8), Error>)
    requires
        old(reader).wf(),
        bdl < 32,
    ensures
        final(reader).wf(),
        final(reader).data() == old(reader).data(),
        r is Ok <==> av1_op_spec(old(reader).data(), old(reader).pos(), dmi, bdl as nat, idd) is Some,
        r matches Ok((l, t)) ==> av1_op_spec(old(reader).data(), old(reader).pos(), dmi, bdl as nat, idd)
            == Some((l as nat, t as nat, final(reader).pos())),
        r matches Err(e) ==> e.kind == ErrorKind::InvalidInput,
{
    let ghost p = reader.pos();
    let ghost s = reader.data();
    proof {
        crate::bits::lemma_two_pow_values();
    }
    let _operating_point_idc = match reader.read_field(12) {
        Ok(v) => v,
        Err(e) => return Err(e),
    };
    let seq_level_idx = match reader.read_field(5) {
        Ok(v) => v as u8,
        Err(e) => return Err(e),
    };
    let seq_tier = if seq_level_idx > 7 {
        reader.read_flag()?
    } else {
        0
    };
    if dmi {
        let present = reader.read_flag()?;
        if present != 0 {
            let n = bdl + 1;
            reader.skip_bits(2 * n + 1)?;
        }
    }
    if idd {
        let present = reader.read_flag()?;
        if present != 0 {
            reader.skip_bits(4)?;
        }
    }
    Ok((seq_level_idx, seq_tier))
}

/// Reads the timing, decoder model and operating point syntax, returning
/// the level and tier of the first operating point.
fn read_seq_ops(reader: &mut BitReader) -> (r: Result<(u8, u8), Error>)
    requires
        old(reader).wf(),
    ensures
        final(reader).wf(),
        final(reader).data() == old(reader).data(),
        r is Ok <==> av1_seq_ops_spec(old(reader).data(), old(reader).pos()) is Some,
        r matches Ok((l, t)) ==> av1_seq_ops_spec(old(reader).data(), old(reader).pos()) == Some(
            (l as nat, t as nat, final(reader).pos()),
        ),
        r matches Err(e) ==> e.kind == ErrorKind::InvalidInput,
{
    let ghost s = reader.data();
    let timing_info_present_flag = reader.read_flag()?;
    let mut decoder_model_info_present = false;
    let mut bdl: u32 = 0;
    if timing_info_present_flag != 0 {
        skip_timing_info(reader)?;
        let f = reader.read_flag()?;
        if f != 0 {
            bdl = read_decoder_model_info(reader)?;
            decoder_model_info_present = true;
        }
    }
    let initial_display_delay_present_flag = reader.read_flag()? != 0;
    proof {
        crate::bits::lemma_two_pow_values();
    }
    let operating_points_cnt_minus_1 = reader.read_field(5)?;
    let (level, tier) = read_operating_point(
        reader,
        decoder_model_info_present,
        bdl,
        initial_display_delay_present_flag,
    )?;
    let ghost target = av1_ops_spec(
        s,
        reader.pos(),
        1,
        operating_points_cnt_minus_1 as nat,
        decoder_model_info_present,
        bdl as nat,
        initial_display_delay_present_flag,
    );
    proof {
        assert(av1_seq_ops_spec(s, old(reader).pos()) == match target {
            None => None,
            Some(p6) => Some((level as nat, tier as nat, p6)),
        });
    }
    let mut i: u32 = 1;
    while i <= operating_points_cnt_minus_1
        invariant
            reader.wf(),
            reader.data() == s,
            s == old(reader).data(),
            av1_seq_ops_spec(s, old(reader).pos()) == match target {
                None => None,
                Some(p6) => Some((level as nat, tier as nat, p6)),
            },
            1 <= i <= operating_points_cnt_minus_1 + 1,
            operating_points_cnt_minus_1 < 32,
            bdl < 32,
            target == av1_ops_spec(
                s,
                reader.pos(),
                i as nat,
                operating_points_cnt_minus_1 as nat,
                decoder_model_info_present,
                bdl as nat,
                initial_display_delay_present_flag,
            ),
        decreases operating_points_cnt_minus_1 + 1 - i,
    {
        let _ = read_operating_point(
            reader,
            decoder_model_info_present,
            bdl,
            initial_display_delay_present_flag,
        )?;
        i += 1;
    }
    Ok((level, tier))
}

/// Reads the maximum frame size.
fn read_frame_dims(reader: &mut BitReader) -> (r: Result<(u32, u32), Error>)
    requires
        old(reader).wf(),
    ensures
        final(reader).wf(),
        final(reader).data() == old(reader).data(),
        r is Ok <==> av1_frame_dims_spec(old(reader).data(), old(reader).pos()) is Some,
        r matches Ok((w, h)) ==> av1_frame_dims_spec(old(reader).data(), old(reader).pos()) == Some(
            (w, h, final(reader).pos()),
        ),
        r matches Err(e) ==> e.kind == ErrorKind::InvalidInput,
{
    let ghost p = reader.pos();
    let ghost s = reader.data();
    proof {
        crate::bits::lemma_two_pow_values();
    }
    let frame_width_bits_minus_1 = match reader.read_field(4) {
        Ok(v) => v,
        Err(e) => return Err(e),
    };
    let frame_height_bits_minus_1 = match reader.read_field(4) {
        Ok(v) => v,
        Err(e) => return Err(e),
    };
    let fw = frame_width_bits_minus_1 + 1;
    let fh = frame_height_bits_minus_1 + 1;
    let w = match reader.read_field(fw) {
        Ok(v) => v,
        Err(e) => return Err(e),
    };
    proof {
        crate::bits::lemma_two_pow_monotone(fw as nat, 16);
        crate::bits::lemma_two_pow_values();
    }
    let h = match reader.read_field(fh) {
        Ok(v) => v,
        Err(e) => return Err(e),
    };
    proof {
        crate::bits::lemma_two_pow_monotone(fh as nat, 16);
    }
    Ok((w + 1, h + 1))
}

/// Skips the coding tool flags from `enable_interintra_compound` through
/// `order_hint_bits_minus_1`.
fn skip_seq_tools(reader: &mut BitReader) -> (r: Result<(), Error>)
    requires
        old(reader).wf(),
    ensures
        final(reader).wf(),
        final(reader).data() == old(reader).data(),
        r is Ok <==> av1_seq_tools_spec(old(reader).data(), old(reader).pos()) is Some,
        r is Ok ==> av1_seq_tools_spec(old(reader).data(), old(reader).pos()) == Some(final(reader).pos()),
        r matches Err(e) ==> e.kind == ErrorKind::InvalidInput,
{
    let ghost p = reader.pos();
    let ghost s = reader.data();
    match reader.skip_bits(4) {
        Ok(()) => {},
        Err(e) => return Err(e),
    }
    let enable_order_hint = match reader.read_flag() {
        Ok(v) => v != 0,
        Err(e) => return Err(e),
    };
    if enable_order_hint {
        match reader.skip_bits(2) {
            Ok(()) => {},
            Err(e) => return Err(e),
        }
    }
    let seq_choose_screen_content_tools = reader.read_flag()? != 0;
    let seq_force_screen_content_tools: u8 = if seq_choose_screen_content_tools {
        2
    } else {
        reader.read_flag()?
    };
    if seq_force_screen_content_tools > 0 {
        let seq_choose_integer_mv = reader.read_flag()? != 0;
        if !seq_choose_integer_mv {
            reader.skip_bits(1)?;
        }
    }
    if enable_order_hint {
        reader.skip_bits(3)?;
    }
    Ok(())
}

/// Skips the flags between the frame size and `color_config()`.
fn skip_seq_flags(reader: &mut BitReader, reduced: bool) -> (r: Result<(), Error>)
    requires
        old(reader).wf(),
    ensures
        final(reader).wf(),
        final(reader).data() == old(reader).data(),
        r is Ok <==> av1_seq_flags_spec(old(reader).data(), old(reader).pos(), reduced) is Some,
        r is Ok ==> av1_seq_flags_spec(old(reader).data(), old(reader).pos(), reduced) == Some(
            final(reader).pos(),
        ),
        r matches Err(e) ==> e.kind == ErrorKind::InvalidInput,
{
    if !reduced {
        let frame_id_numbers_present_flag = reader.read_flag()? != 0;
        if frame_id_numbers_present_flag {
            reader.skip_bits(7)?;
        }
    }
    reader.skip_bits(3)?;
    if !reduced {
        skip_seq_tools(reader)?;
    }
    reader.skip_bits(3)?;
    Ok(())
}

} // verus!

verus! {

/// Colour configuration read from `color_config()`.
struct ColorConfig {
    high_bitdepth: bool,
    twelve_bit: bool,
    monochrome: bool,
    subsampling_x: u8,
    subsampling_y: u8,
    chroma_sample_position: u8,
}

impl ColorConfig {
    /// The configuration as a tuple.
    spec fn tuple(self) -> Av1Color {
        (
            self.high_bitdepth,
            self.twelve_bit,
            self.monochrome,
            self.subsampling_x,
            self.subsampling_y,
            self.chroma_sample_position,
        )
    }
}

/// Reads the subsampling of a non-monochrome colour configuration.
fn read_subsampling(reader: &mut BitReader, profile: u8, bit_depth: u8, cp: u32, tc: u32, mc: u32) -> (r: Result<(u8, u8), Error>)
    requires
        old(reader).wf(),
    ensures
        final(reader).wf(),
        final(reader).data() == old(reader).data(),
        r is Ok <==> av1_subsampling_spec(old(reader).data(), old(reader).pos(), profile as nat, bit_depth as nat, cp as nat, tc as nat, mc as nat) is Some,
        r matches Ok((sx, sy)) ==> av1_subsampling_spec(old(reader).data(), old(reader).pos(), profile as nat, bit_depth as nat, cp as nat, tc as nat, mc as nat)
            == Some((sx, sy, final(reader).pos())),
        r matches Err(e) ==> e.kind == ErrorKind::InvalidInput,
{
    if cp == 1 && tc == 13 && mc == 0 {
        return Ok((0, 0));
    }
    let _color_range = reader.read_flag()?;
    if profile == 0 {
        Ok((1, 1))
    } else if profile == 1 {
        Ok((0, 0))
    } else if bit_depth == 12 {
        let sx = reader.read_flag()?;
        let sy = if sx == 1 {
            reader.read_flag()?
        } else {
            0
        };
        Ok((sx, sy))
    } else {
        Ok((1, 0))
    }
}

/// Reads the first part of `color_config()`.
fn read_color_head(reader: &mut BitReader, seq_profile: u8) -> (r: Result<(bool, bool, u8, bool, u32, u32, u32), Error>)
    requires
        old(reader).wf(),
    ensures
        final(reader).wf(),
        final(reader).data() == old(reader).data(),
        r is Ok <==> av1_color_head_spec(old(reader).data(), old(reader).pos(), seq_profile as nat) is Some,
        r matches Ok((h, t, bd, m, cp, tc, mc)) ==> av1_color_head_spec(
            old(reader).data(),
            old(reader).pos(),
            seq_profile as nat,
        ) == Some((h, t, bd as nat, m, cp as nat, tc as nat, mc as nat, final(reader).pos())),
        r matches Err(e) ==> e.kind == ErrorKind::InvalidInput,
{
    let high_bitdepth = reader.read_flag()? != 0;
    let mut twelve_bit = false;
    let bit_depth: u8 = if seq_profile == 2 && high_bitdepth {
        twelve_bit = reader.read_flag()? != 0;
        if twelve_bit {
            12
        } else {
            10
        }
    } else if high_bitdepth {
        10
    } else {
        8
    };
    let monochrome = if seq_profile == 1 {
        false
    } else {
        reader.read_flag()? != 0
    };
    let color_description_present_flag = reader.read_flag()? != 0;
    proof {
        crate::bits::lemma_two_pow_values();
    }
    if color_description_present_flag {
        let a = reader.read_field(8)?;
        let b = reader.read_field(8)?;
        let c = reader.read_field(8)?;
        Ok((high_bitdepth, twelve_bit, bit_depth, monochrome, a, b, c))
    } else {
        Ok((high_bitdepth, twelve_bit, bit_depth, monochrome, 2, 2, 2))
    }
}

/// Reads `color_config()` for `seq_profile` (0..=2).
fn read_color_config(reader: &mut BitReader, seq_profile: u8) -> (r: Result<ColorConfig, Error>)
    requires
        old(reader).wf(),
        seq_profile <= 2,
    ensures
        final(reader).wf(),
        final(reader).data() == old(reader).data(),
        r is Ok <==> av1_color_spec(old(reader).data(), old(reader).pos(), seq_profile as nat) is Some,
        r matches Ok(c) ==> av1_color_spec(old(reader).data(), old(reader).pos(), seq_profile as nat)
            == Some((c.tuple(), final(reader).pos())),
        r matches Err(e) ==> e.kind == ErrorKind::InvalidInput,
{
    let (high_bitdepth, twelve_bit, bit_depth, monochrome, cp, tc, mc) = read_color_head(reader, seq_profile)?;
    if monochrome {
        let _color_range = reader.read_flag()?;
        return Ok(
            ColorConfig {
                high_bitdepth,
                twelve_bit,
                monochrome: true,
                subsampling_x: 1,
                subsampling_y: 1,
                chroma_sample_position: 0,
            },
        );
    }
    let (subsampling_x, subsampling_y) = read_subsampling(reader, seq_profile, bit_depth, cp, tc, mc)?;
    proof {
        crate::bits::lemma_two_pow_values();
    }
    let chroma_sample_position: u8 = if subsampling_x == 1 && subsampling_y == 1 {
        reader.read_field(2)? as u8
    } else {
        0
    };
    let _separate_uv_delta_q = reader.read_flag()?;
    Ok(
        ColorConfig {
            high_bitdepth,
            twelve_bit,
            monochrome: false,
            subsampling_x,
            subsampling_y,
            chroma_sample_position,
        },
    )
}

/// Parses the payload of a sequence header OBU.
///
/// Fails on a reserved `seq_profile` (3..=7), a reduced still picture
/// header without `still_picture`, and a payload that ends before
/// `film_grain_params_present`.
pub fn parse_sequence_header(payload: &[u8]) -> (r: Result<Av1SequenceHeader, Error>)
    ensures
        r is Ok <==> av1_seq_spec(payload@) is Some,
        r matches Ok(h) ==> av1_seq_spec(payload@) == Some(h),
        r matches Err(e) ==> e.kind == ErrorKind::InvalidInput,
{
    let mut reader = BitReader::new(payload);
    proof {
        crate::bits::lemma_two_pow_values();
    }
    let seq_profile = reader.read_field(3)? as u8;
    if seq_profile > 2 {
        return Err(Error::invalid_input("AV1 seq_profile 3..=7 is reserved (must be 0..=2)"));
    }
    let still_picture = reader.read_flag()? != 0;
    let reduced_still_picture_header = reader.read_flag()? != 0;
    if reduced_still_picture_header && !still_picture {
        return Err(Error::invalid_input("AV1 reduced_still_picture_header requires still_picture = 1"));
    }
    let (seq_level_idx_0, seq_tier_0) = if reduced_still_picture_header {
        let l = reader.read_field(5)? as u8;
        (l, 0u8)
    } else {
        read_seq_ops(&mut reader)?
    };
    let (max_frame_width, max_frame_height) = read_frame_dims(&mut reader)?;
    skip_seq_flags(&mut reader, reduced_still_picture_header)?;
    let color = read_color_config(&mut reader, seq_profile)?;
    let _film_grain_params_present = reader.read_flag()?;
    Ok(
        Av1SequenceHeader {
            seq_profile,
            seq_level_idx_0,
            seq_tier_0,
            high_bitdepth: color.high_bitdepth,
            twelve_bit: color.twelve_bit,
            monochrome: color.monochrome,
            chroma_subsampling_x: color.subsampling_x,
            chroma_subsampling_y: color.subsampling_y,
            chroma_sample_position: color.chroma_sample_position,
            max_frame_width,
            max_frame_height,
            reduced_still_picture_header,
        },
    )
}

/// The frame type of the two bit value `v`.
pub open spec fn av1_frame_type_of(v: nat) -> Av1FrameType {
    if v == 0 {
        Av1FrameType::Key
    } else if v == 1 {
        Av1FrameType::Inter
    } else if v == 2 {
        Av1FrameType::IntraOnly
    } else {
        Av1FrameType::Switch
    }
}

/// The frame header prefix that the payload `r` describes under `seq`: a
/// shown key frame for a reduced still picture header, else
/// `show_existing_frame`, then `frame_type` and `show_frame`.
pub open spec fn av1_frame_prefix_spec(r: Seq<u8>, seq: Av1SequenceHeader) -> Option<Av1FrameHeaderPrefix> {
    if seq.reduced_still_picture_header {
        Some(
            Av1FrameHeaderPrefix {
                show_existing_frame: false,
                frame_type: Some(Av1FrameType::Key),
                show_frame: Some(true),
            },
        )
    } else if bit_len(r) < 1 {
        None
    } else if bit_at(r, 0) != 0 {
        Some(Av1FrameHeaderPrefix { show_existing_frame: true, frame_type: None, show_frame: None })
    } else if bit_len(r) < 4 {
        None
    } else {
        Some(
            Av1FrameHeaderPrefix {
                show_existing_frame: false,
                frame_type: Some(av1_frame_type_of(bits_value(r, 1, 2))),
                show_frame: Some(bit_at(r, 3) != 0),
            },
        )
    }
}

/// Without a reduced still picture header, a first byte whose top bit
/// (`show_existing_frame`) is clear gives `frame_type` from its next two bits
/// (AV1 6.8.2: 0 `KEY_FRAME`, 1 `INTER_FRAME`, 2 `INTRA_ONLY_FRAME`,
/// 3 `SWITCH_FRAME`) and `show_frame` from the bit after them; a set top bit
/// gives a shown existing frame with neither.
pub proof fn lemma_av1_frame_prefix_bits(r: Seq<u8>, seq: Av1SequenceHeader)
    requires
        !seq.reduced_still_picture_header,
        r.len() >= 1,
    ensures
        r[0] >= 0x80 ==> av1_frame_prefix_spec(r, seq) == Some(
            Av1FrameHeaderPrefix { show_existing_frame: true, frame_type: None, show_frame: None },
        ),
        r[0] < 0x80 ==> av1_frame_prefix_spec(r, seq) == Some(
            Av1FrameHeaderPrefix {
                show_existing_frame: false,
                frame_type: Some(
                    if r[0] / 32 == 0 {
                        Av1FrameType::Key
                    } else if r[0] / 32 == 1 {
                        Av1FrameType::Inter
                    } else if r[0] / 32 == 2 {
                        Av1FrameType::IntraOnly
                    } else {
                        Av1FrameType::Switch
                    },
                ),
                show_frame: Some(r[0] / 16 % 2 == 1),
            },
        ),
{
    let b = r[0];
    reveal_with_fuel(bits_value, 3);
    assert(bit_at(r, 0) == (b >> 7u8) & 1u8);
    assert(bit_at(r, 1) == (b >> 6u8) & 1u8);
    assert(bit_at(r, 2) == (b >> 5u8) & 1u8);
    assert(bit_at(r, 3) == (b >> 4u8) & 1u8);
    assert(((b >> 7u8) & 1u8 != 0) == (b >= 0x80)) by (bit_vector);
    assert(b < 0x80 ==> ((b >> 6u8) & 1u8) * 2 + ((b >> 5u8) & 1u8) == b / 32) by (bit_vector);
    assert(((b >> 4u8) & 1u8 != 0) == (b / 16 % 2 == 1)) by (bit_vector);
}

/// Parses the first fields of an uncompressed frame header.
pub fn parse_frame_header_prefix(payload: &[u8], seq: &Av1SequenceHeader) -> (r: Result<
    Av1FrameHeaderPrefix,
    Error,
>)
    ensures
        r is Ok <==> av1_frame_prefix_spec(payload@, *seq) is Some,
        r matches Ok(h) ==> av1_frame_prefix_spec(payload@, *seq) == Some(h),
        r matches Err(e) ==> e.kind == ErrorKind::InvalidInput,
{
    if seq.reduced_still_picture_header {
        return Ok(
            Av1FrameHeaderPrefix {
                show_existing_frame: false,
                frame_type: Some(Av1FrameType::Key),
                show_frame: Some(true),
            },
        );
    }
    let mut reader = BitReader::new(payload);
    let show_existing_frame = reader.read_flag()? != 0;
    if show_existing_frame {
        return Ok(Av1FrameHeaderPrefix { show_existing_frame: true, frame_type: None, show_frame: None });
    }
    proof {
        crate::bits::lemma_two_pow_values();
    }
    let frame_type_value = reader.read_field(2)?;
    let frame_type = if frame_type_value == 0 {
        Av1FrameType::Key
    } else if frame_type_value == 1 {
        Av1FrameType::Inter
    } else if frame_type_value == 2 {
        Av1FrameType::IntraOnly
    } else {
        Av1FrameType::Switch
    };
    let show_frame = reader.read_flag()? != 0;
    Ok(
        Av1FrameHeaderPrefix {
            show_existing_frame: false,
            frame_type: Some(frame_type),
            show_frame: Some(show_frame),
        },
    )
}

} // verus!

verus! {

/// The `configOBUs` that [`build_av01_box`] accepts with `seq`: they parse,
/// and a sequence header OBU appears only first and describes `seq`.
pub open spec fn av1_config_obus_ok(s: Seq<u8>, seq: Av1SequenceHeader) -> bool {
    match av1_obus_spec(s, Av1ObuParseContext::ConfigObus) {
        None => false,
        Some(obus) => forall|k: int|
            0 <= k < obus.len() && (#[trigger] obus[k]).0.0 == Av1ObuType::SequenceHeader ==> k
                == 0 && av1_seq_spec(s.subrange((obus[k].1 + obus[k].0.4) as int, (obus[k].1 + obus[k].0.5) as int))
                == Some(seq),
    }
}

/// `seq` fits `av1C` and the visual fields: frame sizes 1..=65535 and the
/// fields within their bit widths.
pub open spec fn av1_seq_fits(seq: Av1SequenceHeader) -> bool {
    &&& 1 <= seq.max_frame_width <= 0xffff
    &&& 1 <= seq.max_frame_height <= 0xffff
    &&& seq.seq_profile <= 2
    &&& seq.seq_level_idx_0 <= 31
    &&& seq.seq_tier_0 <= 1
    &&& seq.chroma_subsampling_x <= 1
    &&& seq.chroma_subsampling_y <= 1
    &&& seq.chroma_sample_position <= 3
}

/// 1 for `true`, 0 for `false`.
pub open spec fn flag_u8(b: bool) -> u8 {
    if b {
        1
    } else {
        0
    }
}

/// Builds an `av01` sample entry from a sequence header, the `configOBUs`
/// bytes and the caller's settings.
///
/// Fails when the `configOBUs` do not parse (every OBU needs a size field),
/// hold a sequence header OBU other than first or one that differs from
/// `seq`, when `seq` does not fit (frame size outside 1..=65535, fields out
/// of range), or when `initial_presentation_delay_minus_one` exceeds 15.
#[verifier::spinoff_prover]
#[verifier::rlimit(40)]
pub fn build_av01_box(seq: &Av1SequenceHeader, config_obus: &[u8], config: &Av1SampleEntryConfig) -> (r:
    Result<Av01Box, Error>)
    ensures
        r matches Ok(b) ==> sample_entry_fits(SampleEntry::Av01(b)) && sample_entry_ok(SampleEntry::Av01(b)),
        r is Ok <==> (av1_config_obus_ok(config_obus@, *seq) && av1_seq_fits(*seq) && (match config.initial_presentation_delay_minus_one {
            Some(v) => v <= 15,
            None => true,
        })),
        r matches Ok(b) ==> {
            let c = b.av1c_box;
            &&& c.seq_profile == seq.seq_profile
            &&& c.seq_level_idx_0 == seq.seq_level_idx_0
            &&& c.seq_tier_0 == seq.seq_tier_0
            &&& c.high_bitdepth == flag_u8(seq.high_bitdepth)
            &&& c.twelve_bit == flag_u8(seq.twelve_bit)
            &&& c.monochrome == flag_u8(seq.monochrome)
            &&& c.chroma_subsampling_x == seq.chroma_subsampling_x
            &&& c.chroma_subsampling_y == seq.chroma_subsampling_y
            &&& c.chroma_sample_position == seq.chroma_sample_position
            &&& c.initial_presentation_delay_minus_one == config.initial_presentation_delay_minus_one
            &&& c.config_obus@ == config_obus@
            &&& is_default_visual(
                b.visual,
                DEFAULT_DATA_REFERENCE_INDEX,
                seq.max_frame_width as u16,
                seq.max_frame_height as u16,
            )
            &&& b.unknown_boxes@.len() == 0
        },
        r matches Err(e) ==> e.kind == ErrorKind::InvalidInput,
{
    let obus = parse_obus(config_obus, Av1ObuParseContext::ConfigObus)?;
    let ghost specs = av1_obus_spec(config_obus@, Av1ObuParseContext::ConfigObus).unwrap();
    let mut seen_sequence_header = false;
    let mut index: usize = 0;
    while index < obus.len()
        invariant
            av1_obus_spec(config_obus@, Av1ObuParseContext::ConfigObus) == Some(specs),
            av1_obus_match(obus@, config_obus@, specs),
            index <= obus@.len(),
            seen_sequence_header <==> (index > 0 && specs[0].0.0 == Av1ObuType::SequenceHeader),
            forall|k: int|
                0 <= k < index && (#[trigger] specs[k]).0.0 == Av1ObuType::SequenceHeader ==> k == 0
                    && av1_seq_spec(
                    config_obus@.subrange((specs[k].1 + specs[k].0.4) as int, (specs[k].1 + specs[k].0.5) as int),
                ) == Some(*seq),
        decreases obus@.len() - index,
    {
        let obu = obus[index];
        proof {
            assert(av1_obu_matches(obus@[index as int], config_obus@, specs[index as int].1 as int, specs[index as int].0));
        }
        if obu.obu_type == Av1ObuType::SequenceHeader {
            if seen_sequence_header {
                return Err(Error::invalid_input("AV1 configOBUs must contain at most one Sequence Header OBU"));
            }
            if index != 0 {
                return Err(
                    Error::invalid_input("AV1 configOBUs Sequence Header OBU must be the first OBU when present"),
                );
            }
            seen_sequence_header = true;
            let parsed = parse_sequence_header(obu.payload)?;
            if parsed != *seq {
                return Err(
                    Error::invalid_input(
                        "AV1 configOBUs Sequence Header does not match the provided Av1SequenceHeader",
                    ),
                );
            }
        }
        index += 1;
    }
    if seq.max_frame_width == 0 || seq.max_frame_height == 0 || seq.max_frame_width > 0xffff
        || seq.max_frame_height > 0xffff {
        return Err(
            Error::invalid_input(
                "AV1 max_frame_width / max_frame_height must be 1..=65535 to fit VisualSampleEntry",
            ),
        );
    }
    if seq.seq_profile > 2 {
        return Err(Error::invalid_input("AV1 seq_profile must be 0..=2"));
    }
    if seq.seq_level_idx_0 > 31 {
        return Err(Error::invalid_input("AV1 seq_level_idx_0 must be 0..=31"));
    }
    if seq.seq_tier_0 > 1 {
        return Err(Error::invalid_input("AV1 seq_tier_0 must be 0 or 1"));
    }
    if seq.chroma_subsampling_x > 1 || seq.chroma_subsampling_y > 1 {
        return Err(Error::invalid_input("AV1 chroma_subsampling_x / chroma_subsampling_y must be 0 or 1"));
    }
    if seq.chroma_sample_position > 3 {
        return Err(Error::invalid_input("AV1 chroma_sample_position must be 0..=3"));
    }
    let initial_presentation_delay_minus_one = match config.initial_presentation_delay_minus_one {
        None => None,
        Some(v) => {
            if v > 15 {
                return Err(Error::invalid_input("AV1 initial_presentation_delay_minus_one must be 0..=15"));
            }
            Some(v)
        },
    };
    let av1c_box = Av1cBox {
        seq_profile: seq.seq_profile,
        seq_level_idx_0: seq.seq_level_idx_0,
        seq_tier_0: seq.seq_tier_0,
        high_bitdepth: if seq.high_bitdepth {
            1
        } else {
            0
        },
        twelve_bit: if seq.twelve_bit {
            1
        } else {
            0
        },
        monochrome: if seq.monochrome {
            1
        } else {
            0
        },
        chroma_subsampling_x: seq.chroma_subsampling_x,
        chroma_subsampling_y: seq.chroma_subsampling_y,
        chroma_sample_position: seq.chroma_sample_position,
        initial_presentation_delay_minus_one,
        config_obus: vstd::slice::slice_to_vec(config_obus),
    };
    let visual = make_visual(
        DEFAULT_DATA_REFERENCE_INDEX,
        seq.max_frame_width as u16,
        seq.max_frame_height as u16,
    );
    Ok(Av01Box { visual, av1c_box, unknown_boxes: Vec::new() })
}

} // verus!
