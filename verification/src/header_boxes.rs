//! Codecs of the header and leaf boxes of the movie tree (`mvhd`, `tkhd`,
//! `mdhd`, `hdlr`, `elst`, the media headers, `mehd`, `trex`, `url `),
//! each a FullBox of big-endian fields.
use vstd::prelude::*;

use crate::boxes::{BoxType, FixedPointNumber};
use crate::boxes_moov_tree::{
    box_payload_of, box_payload_range, full_box_header, put_full_box_header, signed32, signed_of,
    twos, twos32, EsdsBox, HdlrBox, MdhdBox, MehdBox, MvhdBox, NmhdBox, SmhdBox, SthdBox, TkhdBox,
    TrexBox, UrlBox, VmhdBox, ElstBox, ElstEntry, twos64, signed64,
};
use crate::codec::{
    uuid_code, concat_records, lemma_concat_records, lemma_concat_records_push, lemma_be_roundtrip,
    lemma_be_value_prefix, lemma_be_value_suffix, lemma_be_value_within, put_be, read_be,
    box_bytes, field_values, field_widths, fields_at, fields_bytes, fields_fit, fields_view,
    lemma_be_value_bound, lemma_box_bytes_header, lemma_fields_bytes_len, lemma_fields_roundtrip,
    lemma_fields_view_push, lemma_pow256_values, lemma_width_sum_bound, lemma_widths_view_push,
    pow256, put_box, put_fields, read_fields, u64_vals, width_sum, widths_view,
};
use crate::error::{Error, ErrorKind};
use crate::nal::{be_bytes, be_value};

verus! {

/// Every value read lies below `256^width`.
pub proof fn lemma_fields_at_bound(p: Seq<u8>, at: int, ws: Seq<nat>)
    ensures
        forall|i: int| 0 <= i < ws.len() ==> #[trigger] fields_at(p, at, ws)[i] < pow256(ws[i]),
{
    assert forall|i: int| 0 <= i < ws.len() implies #[trigger] fields_at(p, at, ws)[i] < pow256(ws[i]) by {
        lemma_be_value_bound(p, at + width_sum(ws.take(i)), ws[i]);
    }
}

/// The FullBox version of a header with 32 or 64 bit times: 1 when a time
/// or the duration exceeds `u32::MAX`.
pub open spec fn time_version(creation_time: u64, modification_time: u64, duration: u64) -> u8 {
    if creation_time > u32::MAX || modification_time > u32::MAX || duration > u32::MAX {
        1
    } else {
        0
    }
}

/// Width of the times in a header of `version`.
pub open spec fn time_width(version: u8) -> nat {
    if version == 1 {
        8
    } else {
        4
    }
}

/// The fields of a transformation matrix.
pub open spec fn matrix_fields(m: [i32; 9]) -> Seq<(nat, nat)> {
    Seq::new(9, |i: int| (twos(m@[i] as int, 4), 4nat))
}

/// `n` reserved fields of `w` bytes, all zero.
pub open spec fn zero_fields(n: nat, w: nat) -> Seq<(nat, nat)> {
    Seq::new(n, |i: int| (0nat, w))
}

/// `n` widths `w`.
pub open spec fn same_widths(n: nat, w: nat) -> Seq<nat> {
    Seq::new(n, |i: int| w)
}

/// The two's complement pattern of a 16 bit value.
fn twos16(v: i16) -> (r: u64)
    ensures
        r == twos(v as int, 2),
{
    proof {
        lemma_pow256_values();
    }
    if v < 0 {
        (v as i64 + 0x1_0000) as u64
    } else {
        v as u64
    }
}

/// The two's complement pattern of an 8 bit value.
fn twos8(v: i8) -> (r: u64)
    ensures
        r == twos(v as int, 1),
{
    proof {
        lemma_pow256_values();
    }
    if v < 0 {
        (v as i64 + 0x100) as u64
    } else {
        v as u64
    }
}

/// The signed value of a 16 bit pattern.
fn signed16(u: u64) -> (r: i16)
    requires
        u < 0x1_0000,
    ensures
        r == signed_of(u as nat, 2),
{
    proof {
        lemma_pow256_values();
    }
    if u >= 0x8000 {
        (u as i64 - 0x1_0000) as i16
    } else {
        u as i16
    }
}

/// The signed value of an 8 bit pattern.
fn signed8(u: u64) -> (r: i8)
    requires
        u < 0x100,
    ensures
        r == signed_of(u as nat, 1),
{
    proof {
        lemma_pow256_values();
    }
    if u >= 0x80 {
        (u as i64 - 0x100) as i8
    } else {
        u as i8
    }
}

/// A value in the signed range of `n` bytes survives its two's complement pattern.
proof fn lemma_twos(v: int, n: nat)
    requires
        -pow256(n) <= 2 * v < pow256(n),
    ensures
        twos(v, n) < pow256(n),
        signed_of(twos(v, n), n) == v,
{
}

/// Type code of `mvhd`.
pub open spec fn mvhd_code() -> Seq<u8> {
    seq![0x6du8, 0x76, 0x68, 0x64]
}

/// The FullBox version an `mvhd` box is written with.
pub open spec fn mvhd_version(b: MvhdBox) -> u8 {
    time_version(b.creation_time, b.modification_time, b.duration)
}

/// The fields of an `mvhd` box after version and flags.
pub open spec fn mvhd_fields(b: MvhdBox) -> Seq<(nat, nat)> {
    let w = time_width(mvhd_version(b));
    seq![
        (b.creation_time as nat, w),
        (b.modification_time as nat, w),
        (b.timescale as nat, 4nat),
        (b.duration as nat, w),
        (twos(b.rate.integer as int, 2), 2nat),
        (b.rate.fraction as nat, 2nat),
        (twos(b.volume.integer as int, 1), 1nat),
        (b.volume.fraction as nat, 1nat),
        (0nat, 2nat),
        (0nat, 4nat),
        (0nat, 4nat),
    ] + matrix_fields(b.matrix) + zero_fields(6, 4) + seq![(b.next_track_id as nat, 4nat)]
}

/// The field widths of an `mvhd` box of `version`.
pub open spec fn mvhd_widths(version: u8) -> Seq<nat> {
    let w = time_width(version);
    seq![w, w, 4nat, w, 2nat, 2nat, 1nat, 1nat, 2nat, 4nat, 4nat] + same_widths(9, 4) + same_widths(6, 4)
        + seq![4nat]
}

/// An `mvhd` box of `b`.
pub open spec fn mvhd_box_bytes(b: MvhdBox) -> Seq<u8> {
    box_bytes(
        BoxType::Normal([0x6du8, 0x76, 0x68, 0x64]),
        full_box_header(mvhd_version(b)) + fields_bytes(mvhd_fields(b)),
    )
}

/// What decoding the `mvhd` box at the start of `s` reads: its field values
/// and the box size; `None` when it is not an `mvhd` box, its fields run
/// past the payload, or the timescale is 0.
pub open spec fn mvhd_decode_spec(s: Seq<u8>) -> Option<(Seq<nat>, nat)> {
    match box_payload_of(s, mvhd_code()) {
        None => None,
        Some((p, size)) => if p.len() < 4 || 4 + width_sum(mvhd_widths(p[0])) > p.len() {
            None
        } else {
            let v = fields_at(p, 4, mvhd_widths(p[0]));
            if v[2] == 0 {
                None
            } else {
                Some((v, size))
            }
        },
    }
}

/// Whether `b` holds the `mvhd` field values `v`.
pub open spec fn mvhd_matches(b: MvhdBox, v: Seq<nat>) -> bool {
    &&& v.len() == 27
    &&& b.creation_time == v[0]
    &&& b.modification_time == v[1]
    &&& b.timescale == v[2]
    &&& b.duration == v[3]
    &&& b.rate.integer == signed_of(v[4], 2)
    &&& b.rate.fraction == v[5]
    &&& b.volume.integer == signed_of(v[6], 1)
    &&& b.volume.fraction == v[7]
    &&& forall|k: int| 0 <= k < 9 ==> #[trigger] b.matrix@[k] == signed_of(v[11 + k], 4)
    &&& b.next_track_id == v[26]
}

/// The widths of an `mvhd` box of `version`, as a vector.
fn mvhd_width_vec(version: u8) -> (r: Vec<usize>)
    ensures
        widths_view(r@) == mvhd_widths(version),
        forall|i: int| 0 <= i < r@.len() ==> (#[trigger] r@[i]) <= 8,
{
    let w: usize = if version == 1 {
        8
    } else {
        4
    };
    let mut r: Vec<usize> = vec![w, w, 4, w, 2, 2, 1, 1, 2, 4, 4];
    let mut k: usize = 0;
    while k < 15
        invariant
            k <= 15,
            r@.len() == 11 + k,
            forall|i: int| 0 <= i < r@.len() ==> (#[trigger] r@[i]) <= 8,
            widths_view(r@) == seq![w as nat, w as nat, 4nat, w as nat, 2nat, 2nat, 1nat, 1nat, 2nat, 4nat, 4nat]
                + same_widths(k as nat, 4),
        decreases 15 - k,
    {
        let ghost before = r@;
        r.push(4);
        proof {
            lemma_widths_view_push(before, 4);
            assert(widths_view(r@) =~= seq![w as nat, w as nat, 4nat, w as nat, 2nat, 2nat, 1nat, 1nat, 2nat, 4nat, 4nat]
                + same_widths((k + 1) as nat, 4));
        }
        k += 1;
    }
    let ghost before = r@;
    r.push(4);
    proof {
        lemma_widths_view_push(before, 4);
        assert(same_widths(15, 4) =~= same_widths(9, 4) + same_widths(6, 4));
        assert(widths_view(r@) =~= mvhd_widths(version));
    }
    r
}

impl MvhdBox {
    /// The FullBox version the box is written with: 1 when a time or the
    /// duration exceeds `u32::MAX`, else 0.
    pub fn full_box_version(&self) -> (r: u8)
        ensures
            r == mvhd_version(*self),
    {
        if self.creation_time > 0xffff_ffff || self.modification_time > 0xffff_ffff || self.duration
            > 0xffff_ffff {
            1
        } else {
            0
        }
    }

    /// Encodes the box.
    pub fn encode(&self) -> (r: Vec<u8>)
        ensures
            r@ == mvhd_box_bytes(*self),
    {
        let version = self.full_box_version();
        let w: usize = if version == 1 {
            8
        } else {
            4
        };
        let mut fs: Vec<(u64, usize)> = Vec::new();
        fs.push((self.creation_time, w));
        fs.push((self.modification_time, w));
        fs.push((self.timescale as u64, 4));
        fs.push((self.duration, w));
        fs.push((twos16(self.rate.integer), 2));
        fs.push((self.rate.fraction as u64, 2));
        fs.push((twos8(self.volume.integer), 1));
        fs.push((self.volume.fraction as u64, 1));
        fs.push((0, 2));
        fs.push((0, 4));
        fs.push((0, 4));
        let ghost head = fields_view(fs@);
        let mut k: usize = 0;
        while k < 9
            invariant
                k <= 9,
                head.len() == 11,
                fields_view(fs@) == head + matrix_fields(self.matrix).take(k as int),
                forall|i: int| 0 <= i < fs@.len() ==> (#[trigger] fs@[i]).1 <= 8,
            decreases 9 - k,
        {
            let ghost before = fs@;
            let x = (twos32(self.matrix[k] as i64), 4usize);
            fs.push(x);
            proof {
                lemma_fields_view_push(before, x);
                assert(fields_view(fs@) =~= head + matrix_fields(self.matrix).take(k + 1));
            }
            k += 1;
        }
        let mut z: usize = 0;
        while z < 6
            invariant
                z <= 6,
                fields_view(fs@) == head + matrix_fields(self.matrix) + zero_fields(z as nat, 4),
                forall|i: int| 0 <= i < fs@.len() ==> (#[trigger] fs@[i]).1 <= 8,
            decreases 6 - z,
        {
            let ghost before = fs@;
            fs.push((0, 4));
            proof {
                lemma_fields_view_push(before, (0, 4));
                assert(fields_view(fs@) =~= head + matrix_fields(self.matrix) + zero_fields((z + 1) as nat, 4));
            }
            z += 1;
        }
        let ghost before = fs@;
        fs.push((self.next_track_id as u64, 4));
        proof {
            lemma_fields_view_push(before, (self.next_track_id as u64, 4));
            assert(matrix_fields(self.matrix).take(9) =~= matrix_fields(self.matrix));
            assert(fields_view(fs@) =~= mvhd_fields(*self));
        }
        let mut payload: Vec<u8> = Vec::new();
        put_full_box_header(&mut payload, version);
        put_fields(&mut payload, fs.as_slice());
        proof {
            lemma_fields_bytes_len(fields_view(fs@));
            lemma_width_sum_bound(field_widths(fields_view(fs@)));
        }
        let mut out: Vec<u8> = Vec::new();
        put_box(&mut out, &BoxType::Normal([0x6du8, 0x76, 0x68, 0x64]), payload.as_slice());
        out
    }

    /// Decodes the `mvhd` box at the start of `buf`, returning it and its
    /// size. Versions other than 1 are read with 32 bit times.
    pub fn decode(buf: &[u8]) -> (r: Result<(MvhdBox, usize), Error>)
        ensures
            r is Ok <==> mvhd_decode_spec(buf@) is Some,
            r matches Ok((b, n)) ==> mvhd_decode_spec(buf@) matches Some((v, size)) && mvhd_matches(b, v)
                && n == size,
            r matches Err(e) ==> e.kind == ErrorKind::InvalidData,
    {
        proof {
            assert([0x6du8, 0x76, 0x68, 0x64]@ =~= mvhd_code());
        }
        let (start, end) = box_payload_range(buf, [0x6du8, 0x76, 0x68, 0x64])?;
        let payload = &buf[start..end];
        if payload.len() < 4 {
            return Err(Error::invalid_data("mvhd box is too short"));
        }
        let version = payload[0];
        let ws = mvhd_width_vec(version);
        let v = read_fields(payload, 4, ws.as_slice())?;
        proof {
            lemma_pow256_values();
            lemma_fields_at_bound(payload@, 4, mvhd_widths(version));
            assert(u64_vals(v@).len() == 27);
            assert forall|i: int| 0 <= i < 27 implies #[trigger] v@[i] as nat == u64_vals(v@)[i] by {}
        }
        if v[2] == 0 {
            return Err(Error::invalid_data("mvhd timescale must not be 0"));
        }
        let b = MvhdBox {
            creation_time: v[0],
            modification_time: v[1],
            timescale: v[2] as u32,
            duration: v[3],
            rate: FixedPointNumber { integer: signed16(v[4]), fraction: v[5] as u16 },
            volume: FixedPointNumber { integer: signed8(v[6]), fraction: v[7] as u8 },
            matrix: [
                signed32(v[11]) as i32,
                signed32(v[12]) as i32,
                signed32(v[13]) as i32,
                signed32(v[14]) as i32,
                signed32(v[15]) as i32,
                signed32(v[16]) as i32,
                signed32(v[17]) as i32,
                signed32(v[18]) as i32,
                signed32(v[19]) as i32,
            ],
            next_track_id: v[26] as u32,
        };
        proof {
            assert(mvhd_matches(b, u64_vals(v@)));
        }
        Ok((b, end))
    }
}


/// The matrix fields fit their widths and read back as the matrix.
proof fn lemma_matrix_fields(m: [i32; 9])
    ensures
        fields_fit(matrix_fields(m)),
        forall|k: int| 0 <= k < 9 ==> signed_of(#[trigger] matrix_fields(m)[k].0, 4) == m@[k],
{
    lemma_pow256_values();
    assert forall|k: int| 0 <= k < 9 implies (#[trigger] matrix_fields(m)[k]).0 < pow256(matrix_fields(m)[k].1)
        && signed_of(matrix_fields(m)[k].0, 4) == m@[k] by {
        lemma_twos(m@[k] as int, 4);
    }
}

/// Decoding an encoded `mvhd` box gives back the box, when its timescale is not 0.
pub proof fn lemma_mvhd_codec_roundtrip(b: MvhdBox)
    requires
        b.timescale != 0,
    ensures
        mvhd_decode_spec(mvhd_box_bytes(b)) matches Some((v, n)) && mvhd_matches(b, v) && n
            == mvhd_box_bytes(b).len(),
{
    lemma_pow256_values();
    let fs = mvhd_fields(b);
    let version = mvhd_version(b);
    lemma_matrix_fields(b.matrix);
    lemma_twos(b.rate.integer as int, 2);
    lemma_twos(b.volume.integer as int, 1);
    assert(fields_fit(fs)) by {
        assert forall|i: int| 0 <= i < fs.len() implies (#[trigger] fs[i]).0 < pow256(fs[i].1) by {
            if 11 <= i < 20 {
                assert(fs[i] == matrix_fields(b.matrix)[i - 11]);
            }
        }
    }
    let h = full_box_header(version);
    lemma_fields_roundtrip(h, fs, Seq::empty());
    let p = h + fields_bytes(fs);
    assert(p + Seq::<u8>::empty() =~= p);
    assert(p[0] == version);
    assert(field_widths(fs) =~= mvhd_widths(version));
    lemma_width_sum_bound(field_widths(fs));
    assert([0x6du8, 0x76, 0x68, 0x64]@ =~= mvhd_code());
    lemma_box_bytes_header([0x6du8, 0x76, 0x68, 0x64], p);
    let v = fields_at(p, 4, mvhd_widths(version));
    assert(v == field_values(fs));
    assert forall|k: int| 0 <= k < 9 implies #[trigger] b.matrix@[k] == signed_of(v[11 + k], 4) by {
        assert(v[11 + k] == matrix_fields(b.matrix)[k].0);
    }
}


/// Whether every field is at most 8 bytes wide.
pub open spec fn widths_at_most_8(fs: Seq<(u64, usize)>) -> bool {
    forall|i: int| 0 <= i < fs.len() ==> (#[trigger] fs[i]).1 <= 8
}

/// Appends one field.
fn push_field(fs: &mut Vec<(u64, usize)>, v: u64, w: usize)
    requires
        widths_at_most_8(old(fs)@),
        w <= 8,
    ensures
        fields_view(final(fs)@) == fields_view(old(fs)@).push((v as nat, w as nat)),
        widths_at_most_8(final(fs)@),
{
    let ghost before = fs@;
    fs.push((v, w));
    proof {
        lemma_fields_view_push(before, (v, w));
    }
}

/// Appends the fields of a transformation matrix.
fn push_matrix(fs: &mut Vec<(u64, usize)>, m: &[i32; 9])
    requires
        widths_at_most_8(old(fs)@),
    ensures
        fields_view(final(fs)@) == fields_view(old(fs)@) + matrix_fields(*m),
        widths_at_most_8(final(fs)@),
{
    let ghost head = fields_view(fs@);
    let mut k: usize = 0;
    while k < 9
        invariant
            k <= 9,
            fields_view(fs@) == head + matrix_fields(*m).take(k as int),
            widths_at_most_8(fs@),
        decreases 9 - k,
    {
        push_field(fs, twos32(m[k] as i64), 4);
        proof {
            assert(fields_view(fs@) =~= head + matrix_fields(*m).take(k + 1));
        }
        k += 1;
    }
    proof {
        assert(matrix_fields(*m).take(9) =~= matrix_fields(*m));
    }
}

/// Appends `n` widths `w`.
fn push_widths(ws: &mut Vec<usize>, n: usize, w: usize)
    requires
        forall|i: int| 0 <= i < old(ws)@.len() ==> (#[trigger] old(ws)@[i]) <= 8,
        w <= 8,
    ensures
        widths_view(final(ws)@) == widths_view(old(ws)@) + same_widths(n as nat, w as nat),
        forall|i: int| 0 <= i < final(ws)@.len() ==> (#[trigger] final(ws)@[i]) <= 8,
{
    let ghost head = widths_view(ws@);
    let mut k: usize = 0;
    while k < n
        invariant
            k <= n,
            w <= 8,
            widths_view(ws@) == head + same_widths(k as nat, w as nat),
            forall|i: int| 0 <= i < ws@.len() ==> (#[trigger] ws@[i]) <= 8,
        decreases n - k,
    {
        let ghost before = ws@;
        ws.push(w);
        proof {
            lemma_widths_view_push(before, w);
            assert(widths_view(ws@) =~= head + same_widths((k + 1) as nat, w as nat));
        }
        k += 1;
    }
}

/// Wraps a FullBox header and fields into a box of type `code`.
fn put_full_box_fields(code: [u8; 4], version: u8, flags: u8, fs: &Vec<(u64, usize)>) -> (r: Vec<u8>)
    requires
        widths_at_most_8(fs@),
        fs@.len() <= 64,
    ensures
        r@ == box_bytes(BoxType::Normal(code), seq![version, 0u8, 0u8, flags] + fields_bytes(fields_view(fs@))),
{
    let mut payload: Vec<u8> = Vec::new();
    payload.push(version);
    payload.push(0);
    payload.push(0);
    payload.push(flags);
    let ghost head = payload@;
    put_fields(&mut payload, fs.as_slice());
    proof {
        lemma_fields_bytes_len(fields_view(fs@));
        assert forall|i: int| 0 <= i < field_widths(fields_view(fs@)).len() implies #[trigger] field_widths(
            fields_view(fs@),
        )[i] <= 8 by {
            assert(fs@[i].1 <= 8);
        }
        lemma_width_sum_bound(field_widths(fields_view(fs@)));
        assert(head =~= seq![version, 0u8, 0u8, flags]);
    }
    let mut out: Vec<u8> = Vec::new();
    put_box(&mut out, &BoxType::Normal(code), payload.as_slice());
    out
}

/// Type code of `tkhd`.
pub open spec fn tkhd_code() -> Seq<u8> {
    seq![0x74u8, 0x6b, 0x68, 0x64]
}

/// The FullBox version a `tkhd` box is written with.
pub open spec fn tkhd_version(b: TkhdBox) -> u8 {
    time_version(b.creation_time, b.modification_time, b.duration)
}

/// The low flags byte of a `tkhd` box: `track_enabled` (bit 0),
/// `track_in_movie` (1), `track_in_preview` (2), `track_size_is_aspect_ratio` (3).
pub open spec fn tkhd_flags(b: TkhdBox) -> u8 {
    ((if b.flag_track_enabled { 1int } else { 0 }) + (if b.flag_track_in_movie { 2int } else { 0 })
        + (if b.flag_track_in_preview { 4int } else { 0 }) + (if b.flag_track_size_is_aspect_ratio {
        8int
    } else {
        0
    })) as u8
}

/// The fields of a `tkhd` box after version and flags.
pub open spec fn tkhd_fields(b: TkhdBox) -> Seq<(nat, nat)> {
    let w = time_width(tkhd_version(b));
    seq![
        (b.creation_time as nat, w),
        (b.modification_time as nat, w),
        (b.track_id as nat, 4nat),
        (0nat, 4nat),
        (b.duration as nat, w),
        (0nat, 4nat),
        (0nat, 4nat),
        (twos(b.layer as int, 2), 2nat),
        (twos(b.alternate_group as int, 2), 2nat),
        (twos(b.volume.integer as int, 1), 1nat),
        (b.volume.fraction as nat, 1nat),
        (0nat, 2nat),
    ] + matrix_fields(b.matrix) + seq![
        (twos(b.width.integer as int, 2), 2nat),
        (b.width.fraction as nat, 2nat),
        (twos(b.height.integer as int, 2), 2nat),
        (b.height.fraction as nat, 2nat),
    ]
}

/// The field widths of a `tkhd` box of `version`.
pub open spec fn tkhd_widths(version: u8) -> Seq<nat> {
    let w = time_width(version);
    seq![w, w, 4nat, 4nat, w, 4nat, 4nat, 2nat, 2nat, 1nat, 1nat, 2nat] + same_widths(9, 4) + seq![
        2nat,
        2nat,
        2nat,
        2nat,
    ]
}

/// A `tkhd` box of `b`.
pub open spec fn tkhd_box_bytes(b: TkhdBox) -> Seq<u8> {
    box_bytes(
        BoxType::Normal([0x74u8, 0x6b, 0x68, 0x64]),
        seq![tkhd_version(b), 0u8, 0u8, tkhd_flags(b)] + fields_bytes(tkhd_fields(b)),
    )
}

/// What decoding the `tkhd` box at the start of `s` reads: the low flags
/// byte, the field values and the box size; `None` when it is not a `tkhd`
/// box or its fields run past the payload.
pub open spec fn tkhd_decode_spec(s: Seq<u8>) -> Option<(u8, Seq<nat>, nat)> {
    match box_payload_of(s, tkhd_code()) {
        None => None,
        Some((p, size)) => if p.len() < 4 || 4 + width_sum(tkhd_widths(p[0])) > p.len() {
            None
        } else {
            Some((p[3], fields_at(p, 4, tkhd_widths(p[0])), size))
        },
    }
}

/// Whether `b` holds the `tkhd` flags byte `f` and field values `v`.
pub open spec fn tkhd_matches(b: TkhdBox, f: u8, v: Seq<nat>) -> bool {
    &&& v.len() == 25
    &&& b.flag_track_enabled == (f % 2 == 1)
    &&& b.flag_track_in_movie == ((f / 2) % 2 == 1)
    &&& b.flag_track_in_preview == ((f / 4) % 2 == 1)
    &&& b.flag_track_size_is_aspect_ratio == ((f / 8) % 2 == 1)
    &&& b.creation_time == v[0]
    &&& b.modification_time == v[1]
    &&& b.track_id == v[2]
    &&& b.duration == v[4]
    &&& b.layer == signed_of(v[7], 2)
    &&& b.alternate_group == signed_of(v[8], 2)
    &&& b.volume.integer == signed_of(v[9], 1)
    &&& b.volume.fraction == v[10]
    &&& forall|k: int| 0 <= k < 9 ==> #[trigger] b.matrix@[k] == signed_of(v[12 + k], 4)
    &&& b.width.integer == signed_of(v[21], 2)
    &&& b.width.fraction == v[22]
    &&& b.height.integer == signed_of(v[23], 2)
    &&& b.height.fraction == v[24]
}

/// The widths of a `tkhd` box of `version`, as a vector.
fn tkhd_width_vec(version: u8) -> (r: Vec<usize>)
    ensures
        widths_view(r@) == tkhd_widths(version),
        forall|i: int| 0 <= i < r@.len() ==> (#[trigger] r@[i]) <= 8,
{
    let w: usize = if version == 1 {
        8
    } else {
        4
    };
    let mut r: Vec<usize> = vec![w, w, 4, 4, w, 4, 4, 2, 2, 1, 1, 2];
    push_widths(&mut r, 9, 4);
    push_widths(&mut r, 4, 2);
    proof {
        assert(same_widths(4, 2) =~= seq![2nat, 2nat, 2nat, 2nat]);
        assert(widths_view(r@) =~= tkhd_widths(version));
    }
    r
}

/// Reads the matrix at `v[at..at + 9]`.
fn matrix_at(v: &Vec<u64>, at: usize) -> (r: [i32; 9])
    requires
        at <= 64,
        at + 9 <= v@.len(),
        forall|k: int| at <= k < at + 9 ==> (#[trigger] v@[k]) < 0x1_0000_0000,
    ensures
        forall|k: int| 0 <= k < 9 ==> #[trigger] r@[k] == signed_of(v@[at + k] as nat, 4),
{
    let mut m = [0i32; 9];
    let mut k: usize = 0;
    while k < 9
        invariant
            k <= 9,
            at <= 64,
            at + 9 <= v@.len(),
            forall|j: int| at <= j < at + 9 ==> (#[trigger] v@[j]) < 0x1_0000_0000,
            forall|j: int| 0 <= j < k ==> #[trigger] m@[j] == signed_of(v@[at + j] as nat, 4),
        decreases 9 - k,
    {
        m[k] = signed32(v[at + k]) as i32;
        k += 1;
    }
    m
}

impl TkhdBox {
    /// The FullBox version the box is written with: 1 when a time or the
    /// duration exceeds `u32::MAX`, else 0.
    pub fn full_box_version(&self) -> (r: u8)
        ensures
            r == tkhd_version(*self),
    {
        if self.creation_time > 0xffff_ffff || self.modification_time > 0xffff_ffff || self.duration
            > 0xffff_ffff {
            1
        } else {
            0
        }
    }

    /// The low flags byte (see [`tkhd_flags`]).
    pub fn full_box_flags(&self) -> (r: u8)
        ensures
            r == tkhd_flags(*self),
    {
        let mut f: u8 = 0;
        if self.flag_track_enabled {
            f = f + 1;
        }
        if self.flag_track_in_movie {
            f = f + 2;
        }
        if self.flag_track_in_preview {
            f = f + 4;
        }
        if self.flag_track_size_is_aspect_ratio {
            f = f + 8;
        }
        f
    }

    /// Encodes the box.
    pub fn encode(&self) -> (r: Vec<u8>)
        ensures
            r@ == tkhd_box_bytes(*self),
    {
        let version = self.full_box_version();
        let w: usize = if version == 1 {
            8
        } else {
            4
        };
        let mut fs: Vec<(u64, usize)> = Vec::new();
        push_field(&mut fs, self.creation_time, w);
        push_field(&mut fs, self.modification_time, w);
        push_field(&mut fs, self.track_id as u64, 4);
        push_field(&mut fs, 0, 4);
        push_field(&mut fs, self.duration, w);
        push_field(&mut fs, 0, 4);
        push_field(&mut fs, 0, 4);
        push_field(&mut fs, twos16(self.layer), 2);
        push_field(&mut fs, twos16(self.alternate_group), 2);
        push_field(&mut fs, twos8(self.volume.integer), 1);
        push_field(&mut fs, self.volume.fraction as u64, 1);
        push_field(&mut fs, 0, 2);
        push_matrix(&mut fs, &self.matrix);
        push_field(&mut fs, twos16(self.width.integer), 2);
        push_field(&mut fs, self.width.fraction as u64, 2);
        push_field(&mut fs, twos16(self.height.integer), 2);
        push_field(&mut fs, self.height.fraction as u64, 2);
        proof {
            assert(fields_view(fs@) =~= tkhd_fields(*self));
        }
        put_full_box_fields([0x74u8, 0x6b, 0x68, 0x64], version, self.full_box_flags(), &fs)
    }

    /// Decodes the `tkhd` box at the start of `buf`, returning it and its
    /// size. Versions other than 1 are read with 32 bit times.
    pub fn decode(buf: &[u8]) -> (r: Result<(TkhdBox, usize), Error>)
        ensures
            r is Ok <==> tkhd_decode_spec(buf@) is Some,
            r matches Ok((b, n)) ==> tkhd_decode_spec(buf@) matches Some((f, v, size)) && tkhd_matches(b, f, v)
                && n == size,
            r matches Err(e) ==> e.kind == ErrorKind::InvalidData,
    {
        proof {
            assert([0x74u8, 0x6b, 0x68, 0x64]@ =~= tkhd_code());
        }
        let (start, end) = box_payload_range(buf, [0x74u8, 0x6b, 0x68, 0x64])?;
        let payload = &buf[start..end];
        if payload.len() < 4 {
            return Err(Error::invalid_data("tkhd box is too short"));
        }
        let version = payload[0];
        let flags = payload[3];
        let ws = tkhd_width_vec(version);
        let v = read_fields(payload, 4, ws.as_slice())?;
        proof {
            lemma_pow256_values();
            lemma_fields_at_bound(payload@, 4, tkhd_widths(version));
            assert(u64_vals(v@).len() == 25);
            assert forall|i: int| 0 <= i < 25 implies #[trigger] v@[i] as nat == u64_vals(v@)[i] by {}
            assert forall|k: int| 12 <= k < 21 implies (#[trigger] v@[k]) < 0x1_0000_0000 by {
                assert(tkhd_widths(version)[k] == 4);
            }
        }
        let b = TkhdBox {
            flag_track_enabled: flags % 2 == 1,
            flag_track_in_movie: (flags / 2) % 2 == 1,
            flag_track_in_preview: (flags / 4) % 2 == 1,
            flag_track_size_is_aspect_ratio: (flags / 8) % 2 == 1,
            creation_time: v[0],
            modification_time: v[1],
            track_id: v[2] as u32,
            duration: v[4],
            layer: signed16(v[7]),
            alternate_group: signed16(v[8]),
            volume: FixedPointNumber { integer: signed8(v[9]), fraction: v[10] as u8 },
            matrix: matrix_at(&v, 12),
            width: FixedPointNumber { integer: signed16(v[21]), fraction: v[22] as u16 },
            height: FixedPointNumber { integer: signed16(v[23]), fraction: v[24] as u16 },
        };
        Ok((b, end))
    }
}

/// The flag bits of a `tkhd` flags byte read back.
proof fn lemma_tkhd_flag_bits(b: TkhdBox)
    ensures
        b.flag_track_enabled == (tkhd_flags(b) % 2 == 1),
        b.flag_track_in_movie == ((tkhd_flags(b) / 2) % 2 == 1),
        b.flag_track_in_preview == ((tkhd_flags(b) / 4) % 2 == 1),
        b.flag_track_size_is_aspect_ratio == ((tkhd_flags(b) / 8) % 2 == 1),
{
    let e: int = if b.flag_track_enabled { 1 } else { 0 };
    let m: int = if b.flag_track_in_movie { 1 } else { 0 };
    let p: int = if b.flag_track_in_preview { 1 } else { 0 };
    let a: int = if b.flag_track_size_is_aspect_ratio { 1 } else { 0 };
    let f = e + 2 * m + 4 * p + 8 * a;
    assert(tkhd_flags(b) == f);
    assert(f % 2 == e && (f / 2) % 2 == m && (f / 4) % 2 == p && (f / 8) % 2 == a) by (nonlinear_arith)
        requires
            0 <= e <= 1,
            0 <= m <= 1,
            0 <= p <= 1,
            0 <= a <= 1,
            f == e + 2 * m + 4 * p + 8 * a,
    ;
}

/// Decoding an encoded `tkhd` box gives back the box.
pub proof fn lemma_tkhd_codec_roundtrip(b: TkhdBox)
    ensures
        tkhd_decode_spec(tkhd_box_bytes(b)) matches Some((f, v, n)) && tkhd_matches(b, f, v) && n
            == tkhd_box_bytes(b).len(),
{
    lemma_pow256_values();
    let fs = tkhd_fields(b);
    let version = tkhd_version(b);
    lemma_matrix_fields(b.matrix);
    lemma_twos(b.layer as int, 2);
    lemma_twos(b.alternate_group as int, 2);
    lemma_twos(b.volume.integer as int, 1);
    lemma_twos(b.width.integer as int, 2);
    lemma_twos(b.height.integer as int, 2);
    assert(fields_fit(fs)) by {
        assert forall|i: int| 0 <= i < fs.len() implies (#[trigger] fs[i]).0 < pow256(fs[i].1) by {
            if 12 <= i < 21 {
                assert(fs[i] == matrix_fields(b.matrix)[i - 12]);
            }
        }
    }
    let h = seq![version, 0u8, 0u8, tkhd_flags(b)];
    lemma_tkhd_flag_bits(b);
    lemma_fields_roundtrip(h, fs, Seq::empty());
    let p = h + fields_bytes(fs);
    assert(p + Seq::<u8>::empty() =~= p);
    assert(p[0] == version && p[3] == tkhd_flags(b));
    assert(field_widths(fs) =~= tkhd_widths(version));
    lemma_width_sum_bound(field_widths(fs));
    assert([0x74u8, 0x6b, 0x68, 0x64]@ =~= tkhd_code());
    lemma_box_bytes_header([0x74u8, 0x6b, 0x68, 0x64], p);
    let v = fields_at(p, 4, tkhd_widths(version));
    assert(v == field_values(fs));
    assert forall|k: int| 0 <= k < 9 implies #[trigger] b.matrix@[k] == signed_of(v[12 + k], 4) by {
        assert(v[12 + k] == matrix_fields(b.matrix)[k].0);
    }
}


/// Type code of `mdhd`.
pub open spec fn mdhd_code() -> Seq<u8> {
    seq![0x6du8, 0x64, 0x68, 0x64]
}

/// The FullBox version an `mdhd` box is written with.
pub open spec fn mdhd_version(b: MdhdBox) -> u8 {
    time_version(b.creation_time, b.modification_time, b.duration)
}

/// Whether every language byte lies in `0x60..=0x7f` (five bits each once 0x60 is taken off).
pub open spec fn language_ok(l: [u8; 3]) -> bool {
    forall|i: int| 0 <= i < 3 ==> 0x60 <= #[trigger] l@[i] <= 0x7f
}

/// The 15 bit packed form of a language code.
pub open spec fn language_packed(l: [u8; 3]) -> nat {
    ((l@[0] - 0x60) * 1024 + (l@[1] - 0x60) * 32 + (l@[2] - 0x60)) as nat
}

/// The fields of an `mdhd` box after version and flags.
pub open spec fn mdhd_fields(b: MdhdBox) -> Seq<(nat, nat)> {
    let w = time_width(mdhd_version(b));
    seq![
        (b.creation_time as nat, w),
        (b.modification_time as nat, w),
        (b.timescale as nat, 4nat),
        (b.duration as nat, w),
        (language_packed(b.language), 2nat),
        (0nat, 2nat),
    ]
}

/// The field widths of an `mdhd` box of `version`.
pub open spec fn mdhd_widths(version: u8) -> Seq<nat> {
    let w = time_width(version);
    seq![w, w, 4nat, w, 2nat, 2nat]
}

/// An `mdhd` box of `b`.
pub open spec fn mdhd_box_bytes(b: MdhdBox) -> Seq<u8> {
    box_bytes(
        BoxType::Normal([0x6du8, 0x64, 0x68, 0x64]),
        full_box_header(mdhd_version(b)) + fields_bytes(mdhd_fields(b)),
    )
}

/// What decoding the `mdhd` box at the start of `s` reads: its field
/// values and the box size; `None` when it is not an `mdhd` box, its fields
/// run past the payload, or the timescale is 0.
pub open spec fn mdhd_decode_spec(s: Seq<u8>) -> Option<(Seq<nat>, nat)> {
    match box_payload_of(s, mdhd_code()) {
        None => None,
        Some((p, size)) => if p.len() < 4 || 4 + width_sum(mdhd_widths(p[0])) > p.len() {
            None
        } else {
            let v = fields_at(p, 4, mdhd_widths(p[0]));
            if v[2] == 0 {
                None
            } else {
                Some((v, size))
            }
        },
    }
}

/// Whether `b` holds the `mdhd` field values `v`; the language takes the
/// three five bit groups of the packed field, each plus 0x60.
pub open spec fn mdhd_matches(b: MdhdBox, v: Seq<nat>) -> bool {
    &&& v.len() == 6
    &&& b.creation_time == v[0]
    &&& b.modification_time == v[1]
    &&& b.timescale == v[2]
    &&& b.duration == v[3]
    &&& b.language@[0] == (v[4] / 1024) % 32 + 0x60
    &&& b.language@[1] == (v[4] / 32) % 32 + 0x60
    &&& b.language@[2] == v[4] % 32 + 0x60
}

impl MdhdBox {
    /// The FullBox version the box is written with: 1 when a time or the
    /// duration exceeds `u32::MAX`, else 0.
    pub fn full_box_version(&self) -> (r: u8)
        ensures
            r == mdhd_version(*self),
    {
        if self.creation_time > 0xffff_ffff || self.modification_time > 0xffff_ffff || self.duration
            > 0xffff_ffff {
            1
        } else {
            0
        }
    }

    /// Encodes the box; the language bytes must each lie in `0x60..=0x7f`.
    pub fn encode(&self) -> (r: Vec<u8>)
        requires
            language_ok(self.language),
        ensures
            r@ == mdhd_box_bytes(*self),
    {
        let version = self.full_box_version();
        let w: usize = if version == 1 {
            8
        } else {
            4
        };
        proof {
            assert(0x60 <= self.language@[0] <= 0x7f);
            assert(0x60 <= self.language@[1] <= 0x7f);
            assert(0x60 <= self.language@[2] <= 0x7f);
        }
        let language: u64 = (self.language[0] - 0x60) as u64 * 1024 + (self.language[1] - 0x60) as u64 * 32
            + (self.language[2] - 0x60) as u64;
        let mut fs: Vec<(u64, usize)> = Vec::new();
        push_field(&mut fs, self.creation_time, w);
        push_field(&mut fs, self.modification_time, w);
        push_field(&mut fs, self.timescale as u64, 4);
        push_field(&mut fs, self.duration, w);
        push_field(&mut fs, language, 2);
        push_field(&mut fs, 0, 2);
        proof {
            assert(fields_view(fs@) =~= mdhd_fields(*self));
        }
        put_full_box_fields([0x6du8, 0x64, 0x68, 0x64], version, 0, &fs)
    }

    /// Decodes the `mdhd` box at the start of `buf`, returning it and its
    /// size. Versions other than 1 are read with 32 bit times.
    pub fn decode(buf: &[u8]) -> (r: Result<(MdhdBox, usize), Error>)
        ensures
            r is Ok <==> mdhd_decode_spec(buf@) is Some,
            r matches Ok((b, n)) ==> mdhd_decode_spec(buf@) matches Some((v, size)) && mdhd_matches(b, v)
                && n == size,
            r matches Ok((b, _)) ==> language_ok(b.language),
            r matches Err(e) ==> e.kind == ErrorKind::InvalidData,
    {
        proof {
            assert([0x6du8, 0x64, 0x68, 0x64]@ =~= mdhd_code());
        }
        let (start, end) = box_payload_range(buf, [0x6du8, 0x64, 0x68, 0x64])?;
        let payload = &buf[start..end];
        if payload.len() < 4 {
            return Err(Error::invalid_data("mdhd box is too short"));
        }
        let version = payload[0];
        let w: usize = if version == 1 {
            8
        } else {
            4
        };
        let ws: Vec<usize> = vec![w, w, 4, w, 2, 2];
        proof {
            assert(widths_view(ws@) =~= mdhd_widths(version));
        }
        let v = read_fields(payload, 4, ws.as_slice())?;
        proof {
            lemma_pow256_values();
            lemma_fields_at_bound(payload@, 4, mdhd_widths(version));
            assert(u64_vals(v@).len() == 6);
            assert forall|i: int| 0 <= i < 6 implies #[trigger] v@[i] as nat == u64_vals(v@)[i] by {}
        }
        if v[2] == 0 {
            return Err(Error::invalid_data("mdhd timescale must not be 0"));
        }
        let l = v[4];
        let language = [((l / 1024) % 32) as u8 + 0x60, ((l / 32) % 32) as u8 + 0x60, (l % 32) as u8 + 0x60];
        let b = MdhdBox {
            creation_time: v[0],
            modification_time: v[1],
            timescale: v[2] as u32,
            duration: v[3],
            language,
        };
        Ok((b, end))
    }
}

/// Decoding an encoded `mdhd` box gives back the box, when its timescale
/// is not 0 and its language bytes lie in `0x60..=0x7f`.
pub proof fn lemma_mdhd_codec_roundtrip(b: MdhdBox)
    requires
        b.timescale != 0,
        language_ok(b.language),
    ensures
        mdhd_decode_spec(mdhd_box_bytes(b)) matches Some((v, n)) && mdhd_matches(b, v) && n
            == mdhd_box_bytes(b).len(),
{
    lemma_pow256_values();
    let fs = mdhd_fields(b);
    let version = mdhd_version(b);
    let a = b.language@[0] - 0x60;
    let c = b.language@[1] - 0x60;
    let d = b.language@[2] - 0x60;
    assert(0 <= a < 32 && 0 <= c < 32 && 0 <= d < 32) by {
        assert(0x60 <= b.language@[0] <= 0x7f);
        assert(0x60 <= b.language@[1] <= 0x7f);
        assert(0x60 <= b.language@[2] <= 0x7f);
    }
    let packed = a * 1024 + c * 32 + d;
    assert(packed < 0x8000 && (packed / 1024) % 32 == a && (packed / 32) % 32 == c && packed % 32 == d)
        by (nonlinear_arith)
        requires
            0 <= a < 32,
            0 <= c < 32,
            0 <= d < 32,
            packed == a * 1024 + c * 32 + d,
    ;
    assert(fields_fit(fs));
    let h = full_box_header(version);
    lemma_fields_roundtrip(h, fs, Seq::empty());
    let p = h + fields_bytes(fs);
    assert(p + Seq::<u8>::empty() =~= p);
    assert(p[0] == version);
    assert(field_widths(fs) =~= mdhd_widths(version));
    lemma_width_sum_bound(field_widths(fs));
    assert([0x6du8, 0x64, 0x68, 0x64]@ =~= mdhd_code());
    lemma_box_bytes_header([0x6du8, 0x64, 0x68, 0x64], p);
    let v = fields_at(p, 4, mdhd_widths(version));
    assert(v == field_values(fs));
}


/// What decoding a FullBox of type `code` made of fields of widths `ws`
/// reads at the start of `s`: the low flags byte, the field values and the
/// box size; `None` when it is not such a box or its fields run past the
/// payload. Its version is not looked at.
pub open spec fn fixed_decode_spec(s: Seq<u8>, code: Seq<u8>, ws: Seq<nat>) -> Option<(u8, Seq<nat>, nat)> {
    match box_payload_of(s, code) {
        None => None,
        Some((p, size)) => if p.len() < 4 || 4 + width_sum(ws) > p.len() {
            None
        } else {
            Some((p[3], fields_at(p, 4, ws), size))
        },
    }
}

/// Reads a FullBox of type `code` made of fields of widths `ws`.
fn decode_fixed(buf: &[u8], code: [u8; 4], ws: &[usize]) -> (r: Result<(u8, Vec<u64>, usize), Error>)
    requires
        forall|i: int| 0 <= i < ws@.len() ==> (#[trigger] ws@[i]) <= 8,
    ensures
        r is Ok <==> fixed_decode_spec(buf@, code@, widths_view(ws@)) is Some,
        r matches Ok((f, v, n)) ==> fixed_decode_spec(buf@, code@, widths_view(ws@)) == Some(
            (f, u64_vals(v@), n as nat),
        ) && v@.len() == ws@.len() && forall|i: int|
            0 <= i < v@.len() ==> (#[trigger] v@[i]) < pow256(ws@[i] as nat),
        r matches Err(e) ==> e.kind == ErrorKind::InvalidData,
{
    let (start, end) = box_payload_range(buf, code)?;
    let payload = &buf[start..end];
    if payload.len() < 4 {
        return Err(Error::invalid_data("full box is too short"));
    }
    let v = read_fields(payload, 4, ws)?;
    proof {
        lemma_fields_at_bound(payload@, 4, widths_view(ws@));
        assert(u64_vals(v@).len() == v@.len());
        assert(widths_view(ws@).len() == ws@.len());
        assert forall|i: int| 0 <= i < v@.len() implies (#[trigger] v@[i]) < pow256(ws@[i] as nat) by {
            assert(u64_vals(v@)[i] == v@[i] as nat);
            assert(widths_view(ws@)[i] == ws@[i] as nat);
            assert(fields_at(payload@, 4, widths_view(ws@))[i] < pow256(widths_view(ws@)[i]));
        }
    }
    Ok((payload[3], v, end))
}

/// A FullBox of fields written with `put_full_box_fields` reads back.
proof fn lemma_fixed_roundtrip(code: [u8; 4], version: u8, flags: u8, fs: Seq<(nat, nat)>)
    requires
        code@ != uuid_code(),
        fields_fit(fs),
        fs.len() <= 64,
        forall|i: int| 0 <= i < fs.len() ==> (#[trigger] fs[i]).1 <= 8,
    ensures
        ({
            let s = box_bytes(BoxType::Normal(code), seq![version, 0u8, 0u8, flags] + fields_bytes(fs));
            fixed_decode_spec(s, code@, field_widths(fs)) == Some((flags, field_values(fs), s.len()))
        }),
{
    let h = seq![version, 0u8, 0u8, flags];
    lemma_fields_roundtrip(h, fs, Seq::empty());
    let p = h + fields_bytes(fs);
    assert(p + Seq::<u8>::empty() =~= p);
    assert forall|i: int| 0 <= i < field_widths(fs).len() implies #[trigger] field_widths(fs)[i] <= 8 by {
        assert(fs[i].1 <= 8);
    }
    lemma_width_sum_bound(field_widths(fs));
    lemma_box_bytes_header(code, p);
}

/// Type code of `vmhd`.
pub open spec fn vmhd_code() -> Seq<u8> {
    seq![0x76u8, 0x6d, 0x68, 0x64]
}

/// The fields of a `vmhd` box.
pub open spec fn vmhd_fields(b: VmhdBox) -> Seq<(nat, nat)> {
    seq![
        (b.graphicsmode as nat, 2nat),
        (b.opcolor@[0] as nat, 2nat),
        (b.opcolor@[1] as nat, 2nat),
        (b.opcolor@[2] as nat, 2nat),
    ]
}

/// A `vmhd` box of `b` (version 0, flags 1).
pub open spec fn vmhd_box_bytes(b: VmhdBox) -> Seq<u8> {
    box_bytes(BoxType::Normal([0x76u8, 0x6d, 0x68, 0x64]), seq![0u8, 0u8, 0u8, 1u8] + fields_bytes(vmhd_fields(b)))
}

/// Whether `b` holds the `vmhd` field values `v`.
pub open spec fn vmhd_matches(b: VmhdBox, v: Seq<nat>) -> bool {
    v.len() == 4 && b.graphicsmode == v[0] && b.opcolor@[0] == v[1] && b.opcolor@[1] == v[2] && b.opcolor@[2]
        == v[3]
}

impl VmhdBox {
    /// Encodes the box.
    pub fn encode(&self) -> (r: Vec<u8>)
        ensures
            r@ == vmhd_box_bytes(*self),
    {
        let mut fs: Vec<(u64, usize)> = Vec::new();
        push_field(&mut fs, self.graphicsmode as u64, 2);
        push_field(&mut fs, self.opcolor[0] as u64, 2);
        push_field(&mut fs, self.opcolor[1] as u64, 2);
        push_field(&mut fs, self.opcolor[2] as u64, 2);
        proof {
            assert(fields_view(fs@) =~= vmhd_fields(*self));
        }
        put_full_box_fields([0x76u8, 0x6d, 0x68, 0x64], 0, 1, &fs)
    }

    /// Decodes the `vmhd` box at the start of `buf`, returning it and its size.
    pub fn decode(buf: &[u8]) -> (r: Result<(VmhdBox, usize), Error>)
        ensures
            r is Ok <==> fixed_decode_spec(buf@, vmhd_code(), same_widths(4, 2)) is Some,
            r matches Ok((b, n)) ==> fixed_decode_spec(buf@, vmhd_code(), same_widths(4, 2)) matches Some(
                (_, v, size),
            ) && vmhd_matches(b, v) && n == size,
            r matches Err(e) ==> e.kind == ErrorKind::InvalidData,
    {
        let ws: Vec<usize> = vec![2, 2, 2, 2];
        proof {
            assert(widths_view(ws@) =~= same_widths(4, 2));
            assert([0x76u8, 0x6d, 0x68, 0x64]@ =~= vmhd_code());
            lemma_pow256_values();
        }
        let (_f, v, n) = decode_fixed(buf, [0x76u8, 0x6d, 0x68, 0x64], ws.as_slice())?;
        let b = VmhdBox { graphicsmode: v[0] as u16, opcolor: [v[1] as u16, v[2] as u16, v[3] as u16] };
        Ok((b, n))
    }
}

/// Decoding an encoded `vmhd` box gives back the box.
pub proof fn lemma_vmhd_codec_roundtrip(b: VmhdBox)
    ensures
        fixed_decode_spec(vmhd_box_bytes(b), vmhd_code(), same_widths(4, 2)) matches Some((_, v, n))
            && vmhd_matches(b, v) && n == vmhd_box_bytes(b).len(),
{
    lemma_pow256_values();
    assert([0x76u8, 0x6d, 0x68, 0x64]@ =~= vmhd_code());
    lemma_fixed_roundtrip([0x76u8, 0x6d, 0x68, 0x64], 0, 1, vmhd_fields(b));
    assert(field_widths(vmhd_fields(b)) =~= same_widths(4, 2));
}

/// Type code of `smhd`.
pub open spec fn smhd_code() -> Seq<u8> {
    seq![0x73u8, 0x6d, 0x68, 0x64]
}

/// The fields of an `smhd` box.
pub open spec fn smhd_fields(b: SmhdBox) -> Seq<(nat, nat)> {
    seq![(b.balance.integer as nat, 1nat), (b.balance.fraction as nat, 1nat), (0nat, 2nat)]
}

/// The field widths of an `smhd` box.
pub open spec fn smhd_widths() -> Seq<nat> {
    seq![1nat, 1nat, 2nat]
}

/// An `smhd` box of `b`.
pub open spec fn smhd_box_bytes(b: SmhdBox) -> Seq<u8> {
    box_bytes(BoxType::Normal([0x73u8, 0x6d, 0x68, 0x64]), full_box_header(0) + fields_bytes(smhd_fields(b)))
}

impl SmhdBox {
    /// Encodes the box.
    pub fn encode(&self) -> (r: Vec<u8>)
        ensures
            r@ == smhd_box_bytes(*self),
    {
        let mut fs: Vec<(u64, usize)> = Vec::new();
        push_field(&mut fs, self.balance.integer as u64, 1);
        push_field(&mut fs, self.balance.fraction as u64, 1);
        push_field(&mut fs, 0, 2);
        proof {
            assert(fields_view(fs@) =~= smhd_fields(*self));
        }
        put_full_box_fields([0x73u8, 0x6d, 0x68, 0x64], 0, 0, &fs)
    }

    /// Decodes the `smhd` box at the start of `buf`, returning it and its size.
    pub fn decode(buf: &[u8]) -> (r: Result<(SmhdBox, usize), Error>)
        ensures
            r is Ok <==> fixed_decode_spec(buf@, smhd_code(), smhd_widths()) is Some,
            r matches Ok((b, n)) ==> fixed_decode_spec(buf@, smhd_code(), smhd_widths()) matches Some(
                (_, v, size),
            ) && v.len() == 3 && b.balance.integer == v[0] && b.balance.fraction == v[1] && n == size,
            r matches Err(e) ==> e.kind == ErrorKind::InvalidData,
    {
        let ws: Vec<usize> = vec![1, 1, 2];
        proof {
            assert(widths_view(ws@) =~= smhd_widths());
            assert([0x73u8, 0x6d, 0x68, 0x64]@ =~= smhd_code());
            lemma_pow256_values();
        }
        let (_f, v, n) = decode_fixed(buf, [0x73u8, 0x6d, 0x68, 0x64], ws.as_slice())?;
        Ok((SmhdBox { balance: FixedPointNumber { integer: v[0] as u8, fraction: v[1] as u8 } }, n))
    }
}

/// Decoding an encoded `smhd` box gives back the box.
pub proof fn lemma_smhd_codec_roundtrip(b: SmhdBox)
    ensures
        fixed_decode_spec(smhd_box_bytes(b), smhd_code(), smhd_widths()) matches Some((_, v, n)) && v[0]
            == b.balance.integer && v[1] == b.balance.fraction && n == smhd_box_bytes(b).len(),
{
    lemma_pow256_values();
    assert([0x73u8, 0x6d, 0x68, 0x64]@ =~= smhd_code());
    lemma_fixed_roundtrip([0x73u8, 0x6d, 0x68, 0x64], 0, 0, smhd_fields(b));
    assert(field_widths(smhd_fields(b)) =~= smhd_widths());
    assert(full_box_header(0) =~= seq![0u8, 0u8, 0u8, 0u8]);
}

/// Type code of `sthd`.
pub open spec fn sthd_code() -> Seq<u8> {
    seq![0x73u8, 0x74, 0x68, 0x64]
}

/// Type code of `nmhd`.
pub open spec fn nmhd_code() -> Seq<u8> {
    seq![0x6eu8, 0x6d, 0x68, 0x64]
}

impl SthdBox {
    /// Encodes the box: a FullBox with nothing after version and flags.
    pub fn encode(&self) -> (r: Vec<u8>)
        ensures
            r@ == box_bytes(BoxType::Normal([0x73u8, 0x74, 0x68, 0x64]), full_box_header(0)),
    {
        let fs: Vec<(u64, usize)> = Vec::new();
        proof {
            assert(fields_bytes(fields_view(fs@)) =~= Seq::<u8>::empty());
            assert(full_box_header(0) + Seq::<u8>::empty() =~= full_box_header(0));
        }
        put_full_box_fields([0x73u8, 0x74, 0x68, 0x64], 0, 0, &fs)
    }

    /// Decodes the `sthd` box at the start of `buf`, returning it and its size.
    pub fn decode(buf: &[u8]) -> (r: Result<(SthdBox, usize), Error>)
        ensures
            r is Ok <==> fixed_decode_spec(buf@, sthd_code(), Seq::empty()) is Some,
            r matches Ok((_, n)) ==> fixed_decode_spec(buf@, sthd_code(), Seq::empty()) matches Some((_, _, size))
                && n == size,
            r matches Err(e) ==> e.kind == ErrorKind::InvalidData,
    {
        let ws: Vec<usize> = Vec::new();
        proof {
            assert(widths_view(ws@) =~= Seq::<nat>::empty());
            assert([0x73u8, 0x74, 0x68, 0x64]@ =~= sthd_code());
        }
        let (_f, _v, n) = decode_fixed(buf, [0x73u8, 0x74, 0x68, 0x64], ws.as_slice())?;
        Ok((SthdBox, n))
    }
}

impl NmhdBox {
    /// Encodes the box: a FullBox with nothing after version and flags.
    pub fn encode(&self) -> (r: Vec<u8>)
        ensures
            r@ == box_bytes(BoxType::Normal([0x6eu8, 0x6d, 0x68, 0x64]), full_box_header(0)),
    {
        let fs: Vec<(u64, usize)> = Vec::new();
        proof {
            assert(fields_bytes(fields_view(fs@)) =~= Seq::<u8>::empty());
            assert(full_box_header(0) + Seq::<u8>::empty() =~= full_box_header(0));
        }
        put_full_box_fields([0x6eu8, 0x6d, 0x68, 0x64], 0, 0, &fs)
    }

    /// Decodes the `nmhd` box at the start of `buf`, returning it and its size.
    pub fn decode(buf: &[u8]) -> (r: Result<(NmhdBox, usize), Error>)
        ensures
            r is Ok <==> fixed_decode_spec(buf@, nmhd_code(), Seq::empty()) is Some,
            r matches Ok((_, n)) ==> fixed_decode_spec(buf@, nmhd_code(), Seq::empty()) matches Some((_, _, size))
                && n == size,
            r matches Err(e) ==> e.kind == ErrorKind::InvalidData,
    {
        let ws: Vec<usize> = Vec::new();
        proof {
            assert(widths_view(ws@) =~= Seq::<nat>::empty());
            assert([0x6eu8, 0x6d, 0x68, 0x64]@ =~= nmhd_code());
        }
        let (_f, _v, n) = decode_fixed(buf, [0x6eu8, 0x6d, 0x68, 0x64], ws.as_slice())?;
        Ok((NmhdBox, n))
    }
}

/// Type code of `trex`.
pub open spec fn trex_code() -> Seq<u8> {
    seq![0x74u8, 0x72, 0x65, 0x78]
}

/// The fields of a `trex` box.
pub open spec fn trex_fields(b: TrexBox) -> Seq<(nat, nat)> {
    seq![
        (b.track_id as nat, 4nat),
        (b.default_sample_description_index as nat, 4nat),
        (b.default_sample_duration as nat, 4nat),
        (b.default_sample_size as nat, 4nat),
        (b.default_sample_flags as nat, 4nat),
    ]
}

/// A `trex` box of `b`.
pub open spec fn trex_box_bytes(b: TrexBox) -> Seq<u8> {
    box_bytes(BoxType::Normal([0x74u8, 0x72, 0x65, 0x78]), full_box_header(0) + fields_bytes(trex_fields(b)))
}

/// Whether `b` holds the `trex` field values `v`.
pub open spec fn trex_matches(b: TrexBox, v: Seq<nat>) -> bool {
    &&& v.len() == 5
    &&& b.track_id == v[0]
    &&& b.default_sample_description_index == v[1]
    &&& b.default_sample_duration == v[2]
    &&& b.default_sample_size == v[3]
    &&& b.default_sample_flags == v[4]
}

impl TrexBox {
    /// Encodes the box.
    pub fn encode(&self) -> (r: Vec<u8>)
        ensures
            r@ == trex_box_bytes(*self),
    {
        let mut fs: Vec<(u64, usize)> = Vec::new();
        push_field(&mut fs, self.track_id as u64, 4);
        push_field(&mut fs, self.default_sample_description_index as u64, 4);
        push_field(&mut fs, self.default_sample_duration as u64, 4);
        push_field(&mut fs, self.default_sample_size as u64, 4);
        push_field(&mut fs, self.default_sample_flags as u64, 4);
        proof {
            assert(fields_view(fs@) =~= trex_fields(*self));
            assert(full_box_header(0) =~= seq![0u8, 0u8, 0u8, 0u8]);
        }
        put_full_box_fields([0x74u8, 0x72, 0x65, 0x78], 0, 0, &fs)
    }

    /// Decodes the `trex` box at the start of `buf`, returning it and its size.
    pub fn decode(buf: &[u8]) -> (r: Result<(TrexBox, usize), Error>)
        ensures
            r is Ok <==> fixed_decode_spec(buf@, trex_code(), same_widths(5, 4)) is Some,
            r matches Ok((b, n)) ==> fixed_decode_spec(buf@, trex_code(), same_widths(5, 4)) matches Some(
                (_, v, size),
            ) && trex_matches(b, v) && n == size,
            r matches Err(e) ==> e.kind == ErrorKind::InvalidData,
    {
        let ws: Vec<usize> = vec![4, 4, 4, 4, 4];
        proof {
            assert(widths_view(ws@) =~= same_widths(5, 4));
            assert([0x74u8, 0x72, 0x65, 0x78]@ =~= trex_code());
            lemma_pow256_values();
        }
        let (_f, v, n) = decode_fixed(buf, [0x74u8, 0x72, 0x65, 0x78], ws.as_slice())?;
        let b = TrexBox {
            track_id: v[0] as u32,
            default_sample_description_index: v[1] as u32,
            default_sample_duration: v[2] as u32,
            default_sample_size: v[3] as u32,
            default_sample_flags: v[4] as u32,
        };
        Ok((b, n))
    }
}

/// Decoding an encoded `trex` box gives back the box.
pub proof fn lemma_trex_codec_roundtrip(b: TrexBox)
    ensures
        fixed_decode_spec(trex_box_bytes(b), trex_code(), same_widths(5, 4)) matches Some((_, v, n))
            && trex_matches(b, v) && n == trex_box_bytes(b).len(),
{
    lemma_pow256_values();
    assert([0x74u8, 0x72, 0x65, 0x78]@ =~= trex_code());
    lemma_fixed_roundtrip([0x74u8, 0x72, 0x65, 0x78], 0, 0, trex_fields(b));
    assert(field_widths(trex_fields(b)) =~= same_widths(5, 4));
    assert(full_box_header(0) =~= seq![0u8, 0u8, 0u8, 0u8]);
}


/// Type code of `mehd`.
pub open spec fn mehd_code() -> Seq<u8> {
    seq![0x6du8, 0x65, 0x68, 0x64]
}

/// The FullBox version a `mehd` box is written with: 1 when the duration
/// exceeds `u32::MAX`.
pub open spec fn mehd_version(b: MehdBox) -> u8 {
    if b.fragment_duration > u32::MAX {
        1
    } else {
        0
    }
}

/// A `mehd` box of `b`.
pub open spec fn mehd_box_bytes(b: MehdBox) -> Seq<u8> {
    box_bytes(
        BoxType::Normal([0x6du8, 0x65, 0x68, 0x64]),
        full_box_header(mehd_version(b)) + fields_bytes(
            seq![(b.fragment_duration as nat, time_width(mehd_version(b)))],
        ),
    )
}

/// What decoding the `mehd` box at the start of `s` gives: the fragment
/// duration (64 bit in version 1, else 32 bit) and the box size.
pub open spec fn mehd_decode_spec(s: Seq<u8>) -> Option<(nat, nat)> {
    match box_payload_of(s, mehd_code()) {
        None => None,
        Some((p, size)) => if p.len() < 4 || 4 + time_width(p[0]) > p.len() {
            None
        } else {
            Some((be_value(p, 4, time_width(p[0])), size))
        },
    }
}

impl MehdBox {
    /// The FullBox version the box is written with (see [`mehd_version`]).
    pub fn full_box_version(&self) -> (r: u8)
        ensures
            r == mehd_version(*self),
    {
        if self.fragment_duration > 0xffff_ffff {
            1
        } else {
            0
        }
    }

    /// Encodes the box.
    pub fn encode(&self) -> (r: Vec<u8>)
        ensures
            r@ == mehd_box_bytes(*self),
    {
        let version = self.full_box_version();
        let w: usize = if version == 1 {
            8
        } else {
            4
        };
        let mut fs: Vec<(u64, usize)> = Vec::new();
        push_field(&mut fs, self.fragment_duration, w);
        proof {
            assert(fields_view(fs@) =~= seq![(self.fragment_duration as nat, time_width(version))]);
            assert(full_box_header(version) =~= seq![version, 0u8, 0u8, 0u8]);
        }
        put_full_box_fields([0x6du8, 0x65, 0x68, 0x64], version, 0, &fs)
    }

    /// Decodes the `mehd` box at the start of `buf`, returning it and its size.
    pub fn decode(buf: &[u8]) -> (r: Result<(MehdBox, usize), Error>)
        ensures
            r is Ok <==> mehd_decode_spec(buf@) is Some,
            r matches Ok((b, n)) ==> mehd_decode_spec(buf@) == Some((b.fragment_duration as nat, n as nat)),
            r matches Err(e) ==> e.kind == ErrorKind::InvalidData,
    {
        proof {
            assert([0x6du8, 0x65, 0x68, 0x64]@ =~= mehd_code());
        }
        let (start, end) = box_payload_range(buf, [0x6du8, 0x65, 0x68, 0x64])?;
        let payload = &buf[start..end];
        if payload.len() < 4 {
            return Err(Error::invalid_data("mehd box is too short"));
        }
        let w: usize = if payload[0] == 1 {
            8
        } else {
            4
        };
        let d = crate::codec::read_be(payload, 4, w)?;
        Ok((MehdBox { fragment_duration: d }, end))
    }
}

/// Decoding an encoded `mehd` box gives back its duration.
pub proof fn lemma_mehd_codec_roundtrip(b: MehdBox)
    ensures
        mehd_decode_spec(mehd_box_bytes(b)) == Some((b.fragment_duration as nat, mehd_box_bytes(b).len())),
{
    lemma_pow256_values();
    let version = mehd_version(b);
    let fs = seq![(b.fragment_duration as nat, time_width(version))];
    assert(fields_fit(fs));
    let h = full_box_header(version);
    lemma_fields_roundtrip(h, fs, Seq::empty());
    let p = h + fields_bytes(fs);
    assert(p + Seq::<u8>::empty() =~= p);
    assert(p[0] == version);
    assert(field_widths(fs) =~= seq![time_width(version)]);
    assert(width_sum(seq![time_width(version)]) == time_width(version)) by {
        assert(seq![time_width(version)].drop_last() =~= Seq::<nat>::empty());
        reveal_with_fuel(width_sum, 2);
    }
    assert([0x6du8, 0x65, 0x68, 0x64]@ =~= mehd_code());
    lemma_box_bytes_header([0x6du8, 0x65, 0x68, 0x64], p);
    assert(fields_at(p, 4, seq![time_width(version)])[0] == b.fragment_duration);
    assert(seq![time_width(version)].take(0) =~= Seq::<nat>::empty());
}

/// Type code of `hdlr`.
pub open spec fn hdlr_code() -> Seq<u8> {
    seq![0x68u8, 0x64, 0x6c, 0x72]
}

/// `n` zero bytes.
pub open spec fn zeros(n: nat) -> Seq<u8> {
    Seq::new(n, |i: int| 0u8)
}

/// An `hdlr` box of `b`: version and flags 0, `pre_defined` 0, the
/// handler type, three reserved words, and the name bytes as they are.
pub open spec fn hdlr_box_bytes(b: HdlrBox) -> Seq<u8> {
    box_bytes(
        BoxType::Normal([0x68u8, 0x64, 0x6c, 0x72]),
        zeros(8) + b.handler_type@ + zeros(12) + b.name@,
    )
}

/// What decoding the `hdlr` box at the start of `s` gives: the handler
/// type, the name (every byte after the reserved words) and the box size.
pub open spec fn hdlr_decode_spec(s: Seq<u8>) -> Option<(Seq<u8>, Seq<u8>, nat)> {
    match box_payload_of(s, hdlr_code()) {
        None => None,
        Some((p, size)) => if p.len() < 24 {
            None
        } else {
            Some((p.subrange(8, 12), p.subrange(24, p.len() as int), size))
        },
    }
}

/// Appends `n` zero bytes.
pub(crate) fn put_zeros(out: &mut Vec<u8>, n: usize)
    ensures
        final(out)@ == old(out)@ + zeros(n as nat),
{
    let mut k: usize = 0;
    while k < n
        invariant
            k <= n,
            out@ == old(out)@ + zeros(k as nat),
        decreases n - k,
    {
        out.push(0);
        proof {
            assert(out@ =~= old(out)@ + zeros((k + 1) as nat));
        }
        k += 1;
    }
}

impl HdlrBox {
    /// Encodes the box.
    pub fn encode(&self) -> (r: Vec<u8>)
        requires
            self.name@.len() + 64 <= usize::MAX,
        ensures
            r@ == hdlr_box_bytes(*self),
    {
        let mut payload: Vec<u8> = Vec::new();
        put_zeros(&mut payload, 8);
        crate::codec::put_bytes(&mut payload, self.handler_type.as_slice());
        put_zeros(&mut payload, 12);
        crate::codec::put_bytes(&mut payload, self.name.as_slice());
        let mut out: Vec<u8> = Vec::new();
        put_box(&mut out, &BoxType::Normal([0x68u8, 0x64, 0x6c, 0x72]), payload.as_slice());
        out
    }

    /// Decodes the `hdlr` box at the start of `buf`, returning it and its size.
    pub fn decode(buf: &[u8]) -> (r: Result<(HdlrBox, usize), Error>)
        ensures
            r is Ok <==> hdlr_decode_spec(buf@) is Some,
            r matches Ok((b, n)) ==> hdlr_decode_spec(buf@) == Some((b.handler_type@, b.name@, n as nat)),
            r matches Err(e) ==> e.kind == ErrorKind::InvalidData,
    {
        proof {
            assert([0x68u8, 0x64, 0x6c, 0x72]@ =~= hdlr_code());
        }
        let (start, end) = box_payload_range(buf, [0x68u8, 0x64, 0x6c, 0x72])?;
        let payload = &buf[start..end];
        if payload.len() < 24 {
            return Err(Error::invalid_data("hdlr box is too short"));
        }
        let handler_type = [payload[8], payload[9], payload[10], payload[11]];
        let name = vstd::slice::slice_to_vec(&payload[24..payload.len()]);
        proof {
            assert(handler_type@ =~= payload@.subrange(8, 12));
        }
        Ok((HdlrBox { handler_type, name }, end))
    }
}

/// Decoding an encoded `hdlr` box gives back its handler type and name.
pub proof fn lemma_hdlr_codec_roundtrip(b: HdlrBox)
    requires
        b.name@.len() <= u32::MAX,
    ensures
        hdlr_decode_spec(hdlr_box_bytes(b)) == Some((b.handler_type@, b.name@, hdlr_box_bytes(b).len())),
{
    let p = zeros(8) + b.handler_type@ + zeros(12) + b.name@;
    assert([0x68u8, 0x64, 0x6c, 0x72]@ =~= hdlr_code());
    lemma_box_bytes_header([0x68u8, 0x64, 0x6c, 0x72], p);
    assert(p.subrange(8, 12) =~= b.handler_type@);
    assert(p.subrange(24, p.len() as int) =~= b.name@);
}

/// Type code of `esds`.
pub open spec fn esds_code() -> Seq<u8> {
    seq![0x65u8, 0x73, 0x64, 0x73]
}

/// An `esds` box of `b`: version and flags 0, then the ES descriptor bytes.
pub open spec fn esds_box_bytes(b: EsdsBox) -> Seq<u8> {
    box_bytes(BoxType::Normal([0x65u8, 0x73, 0x64, 0x73]), zeros(4) + b.es@)
}

/// What decoding the `esds` box at the start of `s` gives: the descriptor
/// bytes (all bytes after version and flags) and the box size.
pub open spec fn esds_decode_spec(s: Seq<u8>) -> Option<(Seq<u8>, nat)> {
    match box_payload_of(s, esds_code()) {
        None => None,
        Some((p, size)) => if p.len() < 4 {
            None
        } else {
            Some((p.subrange(4, p.len() as int), size))
        },
    }
}

impl EsdsBox {
    /// Encodes the box.
    pub fn encode(&self) -> (r: Vec<u8>)
        requires
            self.es@.len() + 64 <= usize::MAX,
        ensures
            r@ == esds_box_bytes(*self),
    {
        let mut payload: Vec<u8> = Vec::new();
        put_zeros(&mut payload, 4);
        crate::codec::put_bytes(&mut payload, self.es.as_slice());
        let mut out: Vec<u8> = Vec::new();
        put_box(&mut out, &BoxType::Normal([0x65u8, 0x73, 0x64, 0x73]), payload.as_slice());
        out
    }

    /// Decodes the `esds` box at the start of `buf`, returning it and its
    /// size; the ES descriptor is kept as bytes.
    pub fn decode(buf: &[u8]) -> (r: Result<(EsdsBox, usize), Error>)
        ensures
            r is Ok <==> esds_decode_spec(buf@) is Some,
            r matches Ok((b, n)) ==> esds_decode_spec(buf@) == Some((b.es@, n as nat)),
            r matches Err(e) ==> e.kind == ErrorKind::InvalidData,
    {
        proof {
            assert([0x65u8, 0x73, 0x64, 0x73]@ =~= esds_code());
        }
        let (start, end) = box_payload_range(buf, [0x65u8, 0x73, 0x64, 0x73])?;
        let payload = &buf[start..end];
        if payload.len() < 4 {
            return Err(Error::invalid_data("esds box is too short"));
        }
        let es = vstd::slice::slice_to_vec(&payload[4..payload.len()]);
        Ok((EsdsBox { es }, end))
    }
}

/// Type code of `url `.
pub open spec fn url_code() -> Seq<u8> {
    seq![0x75u8, 0x72, 0x6c, 0x20]
}

/// A `url ` box of `b`: flags 1 and nothing more for "this file", else
/// flags 0 and the location with a terminating NUL.
pub open spec fn url_box_bytes(b: UrlBox) -> Seq<u8> {
    box_bytes(
        BoxType::Normal([0x75u8, 0x72, 0x6c, 0x20]),
        match b.location {
            None => seq![0u8, 0u8, 0u8, 1u8],
            Some(l) => zeros(4) + l@ + seq![0u8],
        },
    )
}

/// The index of the first 0 byte of `s` at or after `from`.
pub open spec fn first_nul(s: Seq<u8>, from: int) -> Option<int>
    decreases s.len() - from,
{
    if from < 0 || from >= s.len() {
        None
    } else if s[from] == 0 {
        Some(from)
    } else {
        first_nul(s, from + 1)
    }
}

/// What decoding the `url ` box at the start of `s` gives: `None` as the
/// location when flag bit 0 is set, else the bytes before the first NUL
/// after version and flags; and the box size. `None` when it is not a
/// `url ` box or the location has no NUL.
pub open spec fn url_decode_spec(s: Seq<u8>) -> Option<(Option<Seq<u8>>, nat)> {
    match box_payload_of(s, url_code()) {
        None => None,
        Some((p, size)) => if p.len() < 4 {
            None
        } else if p[3] % 2 == 1 {
            Some((None, size))
        } else {
            match first_nul(p, 4) {
                None => None,
                Some(z) => Some((Some(p.subrange(4, z)), size)),
            }
        },
    }
}

/// The location of a `url ` box as bytes.
pub open spec fn url_location_view(b: UrlBox) -> Option<Seq<u8>> {
    match b.location {
        None => None,
        Some(l) => Some(l@),
    }
}

/// Finds the first 0 byte at or after `from`.
fn find_nul(s: &[u8], from: usize) -> (r: Option<usize>)
    ensures
        match r {
            None => first_nul(s@, from as int) is None,
            Some(z) => first_nul(s@, from as int) == Some(z as int) && from <= z < s@.len(),
        },
{
    let mut i: usize = from;
    while i < s.len()
        invariant
            from <= i,
            first_nul(s@, from as int) == first_nul(s@, i as int),
        decreases s@.len() - i,
    {
        if s[i] == 0 {
            return Some(i);
        }
        i += 1;
    }
    None
}

impl UrlBox {
    /// The low flags byte: 1 when the data is in this file (no location).
    pub fn full_box_flags(&self) -> (r: u8)
        ensures
            r == (if self.location is None { 1u8 } else { 0u8 }),
    {
        if self.location.is_none() {
            1
        } else {
            0
        }
    }

    /// Encodes the box.
    pub fn encode(&self) -> (r: Vec<u8>)
        requires
            self.location matches Some(l) ==> l@.len() + 64 <= usize::MAX,
        ensures
            r@ == url_box_bytes(*self),
    {
        let mut payload: Vec<u8> = Vec::new();
        match &self.location {
            None => {
                payload.push(0);
                payload.push(0);
                payload.push(0);
                payload.push(1);
                proof {
                    assert(payload@ =~= seq![0u8, 0u8, 0u8, 1u8]);
                }
            },
            Some(l) => {
                put_zeros(&mut payload, 4);
                crate::codec::put_bytes(&mut payload, l.as_slice());
                payload.push(0);
                proof {
                    assert(payload@ =~= zeros(4) + l@ + seq![0u8]);
                }
            },
        }
        let mut out: Vec<u8> = Vec::new();
        put_box(&mut out, &BoxType::Normal([0x75u8, 0x72, 0x6c, 0x20]), payload.as_slice());
        out
    }

    /// Decodes the `url ` box at the start of `buf`, returning it and its size.
    pub fn decode(buf: &[u8]) -> (r: Result<(UrlBox, usize), Error>)
        ensures
            r is Ok <==> url_decode_spec(buf@) is Some,
            r matches Ok((b, n)) ==> url_decode_spec(buf@) == Some((url_location_view(b), n as nat)),
            r matches Err(e) ==> e.kind == ErrorKind::InvalidData,
    {
        proof {
            assert([0x75u8, 0x72, 0x6c, 0x20]@ =~= url_code());
        }
        let (start, end) = box_payload_range(buf, [0x75u8, 0x72, 0x6c, 0x20])?;
        let payload = &buf[start..end];
        if payload.len() < 4 {
            return Err(Error::invalid_data("url box is too short"));
        }
        if payload[3] % 2 == 1 {
            return Ok((UrlBox { location: None }, end));
        }
        match find_nul(payload, 4) {
            None => Err(Error::invalid_data("url location has no terminating NUL")),
            Some(z) => {
                let l = vstd::slice::slice_to_vec(&payload[4..z]);
                Ok((UrlBox { location: Some(l) }, end))
            },
        }
    }
}

/// A location without NUL bytes ends at the NUL written after it.
proof fn lemma_first_nul_after(pre: Seq<u8>, l: Seq<u8>, from: int)
    requires
        pre.len() <= from <= pre.len() + l.len(),
        forall|i: int| 0 <= i < l.len() ==> #[trigger] l[i] != 0,
    ensures
        first_nul(pre + l + seq![0u8], from) == Some((pre.len() + l.len()) as int),
    decreases pre.len() + l.len() - from,
{
    let s = pre + l + seq![0u8];
    if from < pre.len() + l.len() {
        assert(s[from] == l[from - pre.len()]);
        lemma_first_nul_after(pre, l, from + 1);
    }
}

/// Decoding an encoded `url ` box gives back its location, when the
/// location holds no NUL byte.
pub proof fn lemma_url_codec_roundtrip(b: UrlBox)
    requires
        b.location matches Some(l) ==> l@.len() <= u32::MAX && forall|i: int| 0 <= i < l@.len() ==> #[trigger] l@[i] != 0,
    ensures
        url_decode_spec(url_box_bytes(b)) == Some((url_location_view(b), url_box_bytes(b).len())),
{
    assert([0x75u8, 0x72, 0x6c, 0x20]@ =~= url_code());
    match b.location {
        None => {
            lemma_box_bytes_header([0x75u8, 0x72, 0x6c, 0x20], seq![0u8, 0u8, 0u8, 1u8]);
        },
        Some(l) => {
            let p = zeros(4) + l@ + seq![0u8];
            lemma_box_bytes_header([0x75u8, 0x72, 0x6c, 0x20], p);
            lemma_first_nul_after(zeros(4), l@, 4);
            assert(p.subrange(4, 4 + l@.len() as int) =~= l@);
        },
    }
}


/// Type code of `elst`.
pub open spec fn elst_code() -> Seq<u8> {
    seq![0x65u8, 0x6c, 0x73, 0x74]
}

/// Whether an edit needs version 1: its duration exceeds `u32::MAX` or its
/// media time lies outside the signed 32 bit range.
pub open spec fn elst_entry_large(e: ElstEntry) -> bool {
    e.edit_duration > u32::MAX || e.media_time < i32::MIN || e.media_time > i32::MAX
}

/// The FullBox version an `elst` box is written with.
pub open spec fn elst_version(entries: Seq<ElstEntry>) -> u8 {
    if exists|i: int| 0 <= i < entries.len() && elst_entry_large(#[trigger] entries[i]) {
        1
    } else {
        0
    }
}

/// The fields of one edit in an `elst` box of `version`.
pub open spec fn elst_entry_fields(e: ElstEntry, version: u8) -> Seq<(nat, nat)> {
    let w = time_width(version);
    seq![
        (e.edit_duration as nat, w),
        (twos(e.media_time as int, w), w),
        (twos(e.media_rate.integer as int, 2), 2nat),
        (twos(e.media_rate.fraction as int, 2), 2nat),
    ]
}

/// The record of one edit.
pub open spec fn elst_record(e: ElstEntry, version: u8) -> Seq<u8> {
    fields_bytes(elst_entry_fields(e, version))
}

/// An `elst` box of the edits.
pub open spec fn elst_box_bytes(entries: Seq<ElstEntry>) -> Seq<u8> {
    let version = elst_version(entries);
    box_bytes(
        BoxType::Normal([0x65u8, 0x6c, 0x73, 0x74]),
        full_box_header(version) + be_bytes(entries.len(), 4) + concat_records(
            entries.map_values(|e: ElstEntry| elst_record(e, version)),
        ),
    )
}

/// The edit recorded at index `i` of payload `p` of `version`.
pub open spec fn elst_entry_at(p: Seq<u8>, version: u8, i: int) -> ElstEntry {
    let w = time_width(version);
    let at = 8 + (2 * w + 4) * i;
    ElstEntry {
        edit_duration: be_value(p, at, w) as u64,
        media_time: signed_of(be_value(p, at + w, w), w) as i64,
        media_rate: FixedPointNumber {
            integer: signed_of(be_value(p, at + 2 * w, 2), 2) as i16,
            fraction: signed_of(be_value(p, at + 2 * w + 2, 2), 2) as i16,
        },
    }
}

/// What decoding the `elst` box at the start of `s` gives: the edits (64
/// bit times in version 1, else 32 bit) and the box size.
pub open spec fn elst_decode_spec(s: Seq<u8>) -> Option<(Seq<ElstEntry>, nat)> {
    match box_payload_of(s, elst_code()) {
        None => None,
        Some((p, size)) => {
            let w = time_width(p[0]);
            if p.len() < 8 || 8 + (2 * w + 4) * be_value(p, 4, 4) > p.len() {
                None
            } else {
                Some((Seq::new(be_value(p, 4, 4), |i: int| elst_entry_at(p, p[0], i)), size))
            }
        },
    }
}

impl ElstBox {
    /// The FullBox version the box is written with (see [`elst_version`]).
    pub fn full_box_version(&self) -> (r: u8)
        ensures
            r == elst_version(self.entries@),
    {
        let mut i: usize = 0;
        while i < self.entries.len()
            invariant
                i <= self.entries@.len(),
                forall|k: int| 0 <= k < i ==> !elst_entry_large(#[trigger] self.entries@[k]),
            decreases self.entries@.len() - i,
        {
            let e = self.entries[i];
            if e.edit_duration > 0xffff_ffff || e.media_time < -0x8000_0000i64 || e.media_time > 0x7fff_ffffi64 {
                proof {
                    assert(elst_entry_large(self.entries@[i as int]));
                }
                return 1;
            }
            i += 1;
        }
        0
    }

    /// Encodes the box.
    pub fn encode(&self) -> (r: Vec<u8>)
        requires
            self.entries@.len() <= u32::MAX,
            32 * self.entries@.len() + 64 <= usize::MAX,
        ensures
            r@ == elst_box_bytes(self.entries@),
    {
        let version = self.full_box_version();
        let w: usize = if version == 1 {
            8
        } else {
            4
        };
        let ghost recs = self.entries@.map_values(|e: ElstEntry| elst_record(e, version));
        let mut payload: Vec<u8> = Vec::new();
        put_full_box_header(&mut payload, version);
        put_be(&mut payload, self.entries.len() as u64, 4);
        proof {
            crate::codec::lemma_be_bytes_len(self.entries@.len() as nat, 4);
            assert(recs.take(0) =~= Seq::<Seq<u8>>::empty());
        }
        let ghost head = payload@;
        let mut i: usize = 0;
        while i < self.entries.len()
            invariant
                version == elst_version(self.entries@),
                w == time_width(version),
                recs == self.entries@.map_values(|e: ElstEntry| elst_record(e, version)),
                i <= self.entries@.len(),
                payload@ == head + concat_records(recs.take(i as int)),
                payload@.len() <= 8 + 32 * i,
                32 * self.entries@.len() + 64 <= usize::MAX,
            decreases self.entries@.len() - i,
        {
            let e = self.entries[i];
            let mt = if version == 1 {
                twos64(e.media_time)
            } else {
                proof {
                    if elst_entry_large(e) {
                        assert(elst_entry_large(self.entries@[i as int]));
                    }
                }
                twos32(e.media_time)
            };
            let mut fs: Vec<(u64, usize)> = Vec::new();
            push_field(&mut fs, e.edit_duration, w);
            push_field(&mut fs, mt, w);
            push_field(&mut fs, twos16(e.media_rate.integer), 2);
            push_field(&mut fs, twos16(e.media_rate.fraction), 2);
            let ghost before = payload@;
            put_fields(&mut payload, fs.as_slice());
            proof {
                assert(fields_view(fs@) =~= elst_entry_fields(e, version));
                lemma_fields_bytes_len(fields_view(fs@));
                lemma_width_sum_bound(field_widths(fields_view(fs@)));
                lemma_concat_records_push(recs, i as int);
                assert(payload@ =~= head + concat_records(recs.take(i + 1)));
            }
            i += 1;
        }
        proof {
            assert(recs.take(i as int) =~= recs);
        }
        let mut out: Vec<u8> = Vec::new();
        put_box(&mut out, &BoxType::Normal([0x65u8, 0x6c, 0x73, 0x74]), payload.as_slice());
        out
    }

    /// Decodes the `elst` box at the start of `buf`, returning it and its size.
    pub fn decode(buf: &[u8]) -> (r: Result<(ElstBox, usize), Error>)
        ensures
            r is Ok <==> elst_decode_spec(buf@) is Some,
            r matches Ok((b, n)) ==> elst_decode_spec(buf@) == Some((b.entries@, n as nat)),
            r matches Err(e) ==> e.kind == ErrorKind::InvalidData,
    {
        proof {
            assert([0x65u8, 0x6c, 0x73, 0x74]@ =~= elst_code());
        }
        let (start, end) = box_payload_range(buf, [0x65u8, 0x6c, 0x73, 0x74])?;
        let payload = &buf[start..end];
        let ghost p = payload@;
        if payload.len() < 8 {
            return Err(Error::invalid_data("elst box is too short"));
        }
        let version = payload[0];
        let w: usize = if version == 1 {
            8
        } else {
            4
        };
        let rw: usize = 2 * w + 4;
        let count = read_be(payload, 4, 4)?;
        if (payload.len() as u64 - 8) / (rw as u64) < count {
            proof {
                assert(8 + (2 * time_width(p[0]) + 4) * be_value(p, 4, 4) > p.len()) by (nonlinear_arith)
                    requires
                        (p.len() - 8) / (rw as int) < count,
                        rw == 2 * time_width(p[0]) + 4,
                        rw > 0,
                        count == be_value(p, 4, 4),
                        p.len() >= 8,
                ;
            }
            return Err(Error::invalid_data("elst entries exceed the box"));
        }
        proof {
            assert(8 + rw * count <= p.len()) by (nonlinear_arith)
                requires
                    (p.len() - 8) / (rw as int) >= count,
                    rw > 0,
                    p.len() >= 8,
            ;
        }
        let count = count as usize;
        let mut entries: Vec<ElstEntry> = Vec::new();
        let mut i: usize = 0;
        while i < count
            invariant
                p == payload@,
                p.len() <= usize::MAX,
                version == p[0],
                w == time_width(version),
                rw == 2 * w + 4,
                8 + rw * count <= p.len(),
                count == be_value(p, 4, 4),
                i <= count,
                entries@.len() == i,
                forall|k: int| 0 <= k < i ==> #[trigger] entries@[k] == elst_entry_at(p, version, k),
            decreases count - i,
        {
            proof {
                assert(8 + rw * i + rw <= 8 + rw * count) by (nonlinear_arith)
                    requires
                        i < count,
                ;
            }
            let at = 8 + rw * i;
            let d = read_be(payload, at, w)?;
            let mt = read_be(payload, at + w, w)?;
            let ri = read_be(payload, at + 2 * w, 2)?;
            let rf = read_be(payload, at + 2 * w + 2, 2)?;
            proof {
                lemma_pow256_values();
            }
            let media_time = if version == 1 {
                signed64(mt)
            } else {
                signed32(mt)
            };
            let e = ElstEntry {
                edit_duration: d,
                media_time,
                media_rate: FixedPointNumber { integer: signed16(ri), fraction: signed16(rf) },
            };
            proof {
                assert(e == elst_entry_at(p, version, i as int));
            }
            entries.push(e);
            i += 1;
        }
        proof {
            let want = Seq::new(be_value(p, 4, 4), |k: int| elst_entry_at(p, version, k));
            assert(entries@ =~= want);
        }
        Ok((ElstBox { entries }, end))
    }
}


/// One edit's fields fit their widths and read back as the edit.
proof fn lemma_elst_entry_roundtrip(e: ElstEntry, version: u8)
    requires
        version <= 1,
        version == 0 ==> !elst_entry_large(e),
    ensures
        fields_fit(elst_entry_fields(e, version)),
        elst_record(e, version).len() == 2 * time_width(version) + 4,
        ({
            let r = elst_record(e, version);
            let w = time_width(version);
            &&& be_value(r, 0, w) == e.edit_duration
            &&& signed_of(be_value(r, w as int, w), w) == e.media_time
            &&& signed_of(be_value(r, (2 * w) as int, 2), 2) == e.media_rate.integer
            &&& signed_of(be_value(r, (2 * w + 2) as int, 2), 2) == e.media_rate.fraction
        }),
{
    lemma_pow256_values();
    let w = time_width(version);
    let fs = elst_entry_fields(e, version);
    lemma_twos(e.media_time as int, w);
    lemma_twos(e.media_rate.integer as int, 2);
    lemma_twos(e.media_rate.fraction as int, 2);
    assert(fields_fit(fs));
    lemma_fields_roundtrip(Seq::empty(), fs, Seq::empty());
    let r = fields_bytes(fs);
    assert(Seq::<u8>::empty() + r + Seq::<u8>::empty() =~= r);
    let ws = field_widths(fs);
    assert(ws =~= seq![w, w, 2nat, 2nat]);
    reveal_with_fuel(width_sum, 5);
    assert(ws.take(0) =~= Seq::<nat>::empty());
    assert(ws.take(1) =~= seq![w]);
    assert(ws.take(2) =~= seq![w, w]);
    assert(ws.take(3) =~= seq![w, w, 2nat]);
    assert(ws.take(4) =~= ws);
    assert(width_sum(seq![w, w, 2nat, 2nat]) == 2 * w + 4);
    let v = fields_at(r, 0, ws);
    assert(v == field_values(fs));
    assert(v[0] == be_value(r, 0, w));
    assert(v[1] == be_value(r, w as int, w));
    assert(v[2] == be_value(r, (2 * w) as int, 2));
    assert(v[3] == be_value(r, (2 * w + 2) as int, 2));
}

/// Decoding an encoded `elst` box gives back its edits and size.
#[verifier::spinoff_prover]
pub proof fn lemma_elst_codec_roundtrip(entries: Seq<ElstEntry>)
    requires
        entries.len() <= u32::MAX,
    ensures
        elst_decode_spec(elst_box_bytes(entries)) == Some((entries, elst_box_bytes(entries).len())),
{
    lemma_pow256_values();
    let version = elst_version(entries);
    let w = time_width(version);
    let rw = 2 * w + 4;
    let recs = entries.map_values(|e: ElstEntry| elst_record(e, version));
    assert forall|i: int| 0 <= i < entries.len() && version == 0 implies !elst_entry_large(#[trigger] entries[i]) by {}
    assert forall|i: int| 0 <= i < recs.len() implies (#[trigger] recs[i]).len() == rw by {
        lemma_elst_entry_roundtrip(entries[i], version);
    }
    lemma_concat_records(recs, rw);
    let body = concat_records(recs);
    lemma_be_roundtrip(entries.len(), 4);
    let h0 = full_box_header(version);
    let h1 = be_bytes(entries.len(), 4);
    let p = h0 + h1 + body;
    assert(p =~= (h0 + h1) + body);
    assert(be_value(p, 4, 4) == entries.len()) by {
        lemma_be_value_prefix(h0 + h1, body, 4, 4);
        lemma_be_value_suffix(h0, h1, 0, 4);
    }
    assert(p[0] == version);
    assert(8 + rw * entries.len() <= p.len()) by (nonlinear_arith)
        requires
            p.len() == 8 + entries.len() * rw,
    ;
    assert(p.len() == 8 + entries.len() * rw);
    assert(8 + p.len() <= u64::MAX - 8) by (nonlinear_arith)
        requires
            entries.len() <= u32::MAX,
            rw <= 20,
            p.len() == 8 + entries.len() * rw,
    ;
    assert([0x65u8, 0x6c, 0x73, 0x74]@ =~= elst_code());
    lemma_box_bytes_header([0x65u8, 0x6c, 0x73, 0x74], p);
    assert forall|i: int| 0 <= i < entries.len() implies #[trigger] elst_entry_at(p, version, i) == entries[i] by {
        let e = entries[i];
        let r = recs[i];
        lemma_elst_entry_roundtrip(e, version);
        let at = 8 + rw * i;
        assert(at + rw <= p.len()) by (nonlinear_arith)
            requires
                0 <= i < entries.len(),
                at == 8 + rw * i,
                p.len() == 8 + entries.len() * rw,
        ;
        assert forall|j: int| 0 <= j < rw implies p[at + j] == r[j] by {
            assert(body[i * rw + j] == recs[i][j]);
            assert(rw * i == i * rw) by (nonlinear_arith);
        }
        lemma_be_value_within(p, r, at, 0, w);
        lemma_be_value_within(p, r, at, w as int, w);
        lemma_be_value_within(p, r, at, (2 * w) as int, 2);
        lemma_be_value_within(p, r, at, (2 * w + 2) as int, 2);
    }
    let decoded = Seq::new(be_value(p, 4, 4), |k: int| elst_entry_at(p, version, k));
    assert(decoded =~= entries);
}

} // verus!
