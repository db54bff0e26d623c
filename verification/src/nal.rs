//! Codec independent NAL unit framing (Annex B start codes and
//! ISO/IEC 14496-15 length prefixes), shared by H.264 and H.265.
use vstd::prelude::*;

use crate::error::{Error, ErrorKind};

verus! {

/// Width of the big-endian length field in front of each NAL unit
/// (`lengthSizeMinusOne` of ISO/IEC 14496-15; the reserved width 3 has no variant).
#[derive(Debug, Clone, Copy, PartialEq, Eq, Hash, Structural)]
pub enum LengthSize {
    /// 1 byte (`lengthSizeMinusOne == 0`)
    OneByte,
    /// 2 bytes (`lengthSizeMinusOne == 1`)
    TwoBytes,
    /// 4 bytes (`lengthSizeMinusOne == 3`)
    FourBytes,
}

impl LengthSize {
    /// Width in bytes.
    pub open spec fn width(self) -> nat {
        match self {
            LengthSize::OneByte => 1,
            LengthSize::TwoBytes => 2,
            LengthSize::FourBytes => 4,
        }
    }

    /// Largest NAL length the field can carry (`256^width - 1`).
    pub open spec fn max_len(self) -> nat {
        match self {
            LengthSize::OneByte => 0xff,
            LengthSize::TwoBytes => 0xffff,
            LengthSize::FourBytes => 0xffff_ffff,
        }
    }

    /// Width in bytes (1 / 2 / 4).
    pub fn bytes(self) -> (r: usize)
        ensures
            r == self.width(),
    {
        match self {
            LengthSize::OneByte => 1,
            LengthSize::TwoBytes => 2,
            LengthSize::FourBytes => 4,
        }
    }

    /// The `lengthSizeMinusOne` value (0 / 1 / 3).
    pub fn length_size_minus_one(self) -> (r: u8)
        ensures
            r + 1 == self.width(),
    {
        match self {
            LengthSize::OneByte => 0,
            LengthSize::TwoBytes => 1,
            LengthSize::FourBytes => 3,
        }
    }

    /// Maps a `lengthSizeMinusOne` value to its width; 2 is reserved and
    /// values from 4 up do not fit the two bit field, both are rejected.
    pub fn from_length_size_minus_one(value: u8) -> (r: Result<LengthSize, Error>)
        ensures
            r is Ok <==> (value == 0 || value == 1 || value == 3),
            r matches Ok(ls) ==> ls.width() == value + 1,
            r matches Err(e) ==> e.kind == ErrorKind::InvalidInput,
    {
        match value {
            0 => Ok(LengthSize::OneByte),
            1 => Ok(LengthSize::TwoBytes),
            3 => Ok(LengthSize::FourBytes),
            2 => Err(Error::invalid_input("lengthSizeMinusOne 2 is reserved")),
            _ => Err(Error::invalid_input("lengthSizeMinusOne must be 0, 1, or 3")),
        }
    }
}

// ---------------------------------------------------------------------------
// Annex B model
// ---------------------------------------------------------------------------

/// A 4 byte start code `00 00 00 01` begins at `p`.
pub open spec fn is_start_code4(s: Seq<u8>, p: int) -> bool {
    0 <= p && p + 4 <= s.len() && s[p] == 0 && s[p + 1] == 0 && s[p + 2] == 0 && s[p + 3] == 1
}

/// A 3 byte start code `00 00 01` begins at `p`.
pub open spec fn is_start_code3(s: Seq<u8>, p: int) -> bool {
    0 <= p && p + 3 <= s.len() && s[p] == 0 && s[p + 1] == 0 && s[p + 2] == 1
}

/// Length of the start code at `p` (the 4 byte form wins), 0 when there is none.
pub open spec fn start_code_len(s: Seq<u8>, p: int) -> int {
    if is_start_code4(s, p) {
        4
    } else if is_start_code3(s, p) {
        3
    } else {
        0
    }
}

/// Position of the first start code at or after `p`.
pub open spec fn find_start_code_spec(s: Seq<u8>, p: int) -> Option<int>
    decreases s.len() - p,
{
    if p < 0 || p + 3 > s.len() {
        None
    } else if start_code_len(s, p) > 0 {
        Some(p)
    } else {
        find_start_code_spec(s, p + 1)
    }
}

/// End of `s[lo..hi]` once trailing zero bytes (stuffing) are dropped.
pub open spec fn trim_trailing_zeros(s: Seq<u8>, lo: int, hi: int) -> int
    decreases hi - lo,
{
    if hi > lo && s[hi - 1] == 0 {
        trim_trailing_zeros(s, lo, hi - 1)
    } else {
        hi
    }
}

pub proof fn lemma_find_start_code(s: Seq<u8>, p: int)
    ensures
        find_start_code_spec(s, p) matches Some(i) ==> {
            &&& p <= i
            &&& i + start_code_len(s, i) <= s.len()
            &&& start_code_len(s, i) >= 3
        },
        find_start_code_spec(s, p) is None && 0 <= p ==> forall|i: int|
            p <= i < s.len() ==> start_code_len(s, i) == 0,
    decreases s.len() - p,
{
    if p < 0 || p + 3 > s.len() {
    } else if start_code_len(s, p) > 0 {
    } else {
        lemma_find_start_code(s, p + 1);
    }
}

pub proof fn lemma_trim(s: Seq<u8>, lo: int, hi: int)
    requires
        lo <= hi,
    ensures
        lo <= trim_trailing_zeros(s, lo, hi) <= hi,
        forall|i: int| trim_trailing_zeros(s, lo, hi) <= i < hi ==> s[i] == 0,
        trim_trailing_zeros(s, lo, hi) > lo ==> s[trim_trailing_zeros(s, lo, hi) - 1] != 0,
    decreases hi - lo,
{
    if hi > lo && s[hi - 1] == 0 {
        lemma_trim(s, lo, hi - 1);
    }
}

/// NAL bodies found from `cursor` on, where `cursor` is just past a start code.
pub open spec fn scan_annexb_from(s: Seq<u8>, cursor: int) -> Option<Seq<Seq<u8>>>
    decreases s.len() - cursor,
{
    if cursor < 0 || cursor > s.len() {
        None
    } else {
        match find_start_code_spec(s, cursor) {
            Some(next) => {
                let end = trim_trailing_zeros(s, cursor, next);
                if end == cursor {
                    None
                } else {
                    proof {
                        lemma_find_start_code(s, cursor);
                    }
                    match scan_annexb_from(s, next + start_code_len(s, next)) {
                        Some(rest) => Some(seq![s.subrange(cursor, end)] + rest),
                        None => None,
                    }
                }
            },
            None => {
                let end = trim_trailing_zeros(s, cursor, s.len() as int);
                if end == cursor {
                    None
                } else {
                    Some(seq![s.subrange(cursor, end)])
                }
            },
        }
    }
}

/// The NAL unit bodies of an Annex B byte stream, or `None` where the stream
/// is rejected: no start code in a non-empty input, a non-zero byte before the
/// first start code, or an empty NAL unit. Zero bytes before the first start
/// code and trailing zeros of each unit are stuffing and belong to no unit.
pub open spec fn scan_annexb_spec(s: Seq<u8>) -> Option<Seq<Seq<u8>>> {
    if s.len() == 0 {
        Some(Seq::empty())
    } else {
        match find_start_code_spec(s, 0) {
            None => None,
            Some(first) => if (forall|i: int| 0 <= i < first ==> s[i] == 0) {
                scan_annexb_from(s, first + start_code_len(s, first))
            } else {
                None
            },
        }
    }
}

/// The reason the Annex B scan gives for rejecting `s`: no start code, a
/// non-zero byte before the first start code, or else an empty NAL unit.
pub open spec fn scan_annexb_reason(s: Seq<u8>) -> &'static str {
    match find_start_code_spec(s, 0) {
        None => "Annex B input has no start code",
        Some(first) => if (forall|i: int| 0 <= i < first ==> s[i] == 0) {
            "Annex B input has an empty NAL unit"
        } else {
            "Annex B input has non-zero bytes before the first start code"
        },
    }
}

/// The views of a sequence of borrowed slices.
pub open spec fn slice_views(v: Seq<&[u8]>) -> Seq<Seq<u8>> {
    Seq::new(v.len(), |i: int| v[i]@)
}

/// Concatenation of the NAL units, each behind a 4 byte start code.
pub open spec fn annexb_join(nals: Seq<Seq<u8>>) -> Seq<u8>
    decreases nals.len(),
{
    if nals.len() == 0 {
        Seq::empty()
    } else {
        annexb_join(nals.drop_last()) + seq![0u8, 0u8, 0u8, 1u8] + nals.last()
    }
}

// ---------------------------------------------------------------------------
// Length-prefixed model
// ---------------------------------------------------------------------------

/// Big-endian value of `s[p..p + n]`.
pub open spec fn be_value(s: Seq<u8>, p: int, n: nat) -> nat
    decreases n,
{
    if n == 0 {
        0
    } else {
        be_value(s, p, (n - 1) as nat) * 256 + s[p + n - 1] as nat
    }
}

/// `v` written big-endian in `n` bytes (higher bytes are dropped).
pub open spec fn be_bytes(v: nat, n: nat) -> Seq<u8>
    decreases n,
{
    if n == 0 {
        Seq::empty()
    } else {
        be_bytes(v / 256, (n - 1) as nat).push((v % 256) as u8)
    }
}

/// NAL bodies of a length-prefixed stream read from `cursor` on, or `None`
/// when a length field is cut off, a declared length is 0, or a declared
/// length runs past the end of the input.
pub open spec fn scan_length_prefixed_from(s: Seq<u8>, w: nat, cursor: int) -> Option<
    Seq<Seq<u8>>,
>
    decreases s.len() - cursor,
{
    if cursor < 0 || cursor >= s.len() {
        Some(Seq::empty())
    } else if s.len() - cursor < w {
        None
    } else {
        let len = be_value(s, cursor, w);
        let body = cursor + w;
        if len == 0 || len > s.len() - body {
            None
        } else {
            match scan_length_prefixed_from(s, w, body + len) {
                Some(rest) => Some(seq![s.subrange(body, body + len)] + rest),
                None => None,
            }
        }
    }
}

/// NAL bodies of a whole length-prefixed stream.
pub open spec fn scan_length_prefixed_spec(s: Seq<u8>, ls: LengthSize) -> Option<Seq<Seq<u8>>> {
    scan_length_prefixed_from(s, ls.width(), 0)
}

/// Concatenation of the NAL units, each behind its big-endian length.
pub open spec fn length_prefixed_join(nals: Seq<Seq<u8>>, w: nat) -> Seq<u8>
    decreases nals.len(),
{
    if nals.len() == 0 {
        Seq::empty()
    } else {
        be_bytes(nals[0].len(), w) + nals[0] + length_prefixed_join(nals.drop_first(), w)
    }
}

/// Every unit is non-empty and its length fits the length field.
pub open spec fn all_fit(nals: Seq<Seq<u8>>, ls: LengthSize) -> bool {
    forall|i: int| 0 <= i < nals.len() ==> 0 < #[trigger] nals[i].len() <= ls.max_len()
}

/// Result of converting an Annex B stream to the length-prefixed form.
pub open spec fn annexb_to_length_prefixed_spec(s: Seq<u8>, ls: LengthSize) -> Option<Seq<u8>> {
    match scan_annexb_spec(s) {
        None => None,
        Some(nals) => if (forall|i: int| 0 <= i < nals.len() ==> #[trigger] nals[i].len() <= ls.max_len()) {
            Some(length_prefixed_join(nals, ls.width()))
        } else {
            None
        },
    }
}

/// Result of converting a length-prefixed stream to Annex B.
pub open spec fn length_prefixed_to_annexb_spec(s: Seq<u8>, ls: LengthSize) -> Option<Seq<u8>> {
    match scan_length_prefixed_spec(s, ls) {
        None => None,
        Some(nals) => Some(annexb_join(nals)),
    }
}

// ---------------------------------------------------------------------------
// Executable framing
// ---------------------------------------------------------------------------

/// Length of the start code at `pos` (4 byte form checked first), if any.
fn start_code_len_at(input: &[u8], pos: usize) -> (r: Option<usize>)
    requires
        pos <= input@.len(),
    ensures
        r is Some <==> start_code_len(input@, pos as int) > 0,
        r matches Some(n) ==> n == start_code_len(input@, pos as int),
{
    let len = input.len();
    if len - pos >= 4 && input[pos] == 0 && input[pos + 1] == 0 && input[pos + 2] == 0 && input[pos
        + 3] == 1 {
        Some(4)
    } else if len - pos >= 3 && input[pos] == 0 && input[pos + 1] == 0 && input[pos + 2] == 1 {
        Some(3)
    } else {
        None
    }
}

/// Position and length of the first start code at or after `pos`.
fn find_start_code(input: &[u8], pos: usize) -> (r: Option<(usize, usize)>)
    requires
        pos <= input@.len(),
    ensures
        match r {
            Some((i, n)) => find_start_code_spec(input@, pos as int) == Some(i as int) && n
                == start_code_len(input@, i as int),
            None => find_start_code_spec(input@, pos as int) is None,
        },
{
    let mut i = pos;
    while i < input.len() && input.len() - i >= 3
        invariant
            pos <= i <= input@.len(),
            find_start_code_spec(input@, pos as int) == find_start_code_spec(input@, i as int),
        decreases input@.len() - i,
    {
        if let Some(n) = start_code_len_at(input, i) {
            return Some((i, n));
        }
        i += 1;
    }
    None
}

/// End of `input[lo..hi]` with trailing zero bytes dropped.
fn trim_zeros(input: &[u8], lo: usize, hi: usize) -> (r: usize)
    requires
        lo <= hi <= input@.len(),
    ensures
        r == trim_trailing_zeros(input@, lo as int, hi as int),
{
    let mut end = hi;
    while end > lo && input[end - 1] == 0
        invariant
            lo <= end <= hi <= input@.len(),
            trim_trailing_zeros(input@, lo as int, hi as int) == trim_trailing_zeros(
                input@,
                lo as int,
                end as int,
            ),
        decreases end,
    {
        end -= 1;
    }
    end
}

/// Splits an Annex B byte stream into its NAL unit bodies (start codes and
/// zero stuffing removed), borrowing from `input`.
pub fn scan_annexb_nals(input: &[u8]) -> (r: Result<Vec<&[u8]>, Error>)
    ensures
        r is Ok <==> scan_annexb_spec(input@) is Some,
        r matches Ok(v) ==> scan_annexb_spec(input@) == Some(slice_views(v@)),
        r matches Err(e) ==> e.kind == ErrorKind::InvalidInput && e.reason == scan_annexb_reason(
            input@,
        ),
{
    let mut nals: Vec<&[u8]> = Vec::new();
    let total = input.len();
    proof {
        assert(total == input@.len());
    }
    if total == 0 {
        proof {
            assert(slice_views(nals@) =~= Seq::<Seq<u8>>::empty());
        }
        return Ok(nals);
    }
    let (first_start, first_len) = match find_start_code(input, 0) {
        Some(x) => x,
        None => {
            return Err(Error::invalid_input("Annex B input has no start code"));
        },
    };
    proof {
        lemma_find_start_code(input@, 0);
    }
    let mut k: usize = 0;
    while k < first_start
        invariant
            first_start <= input@.len(),
            input@.len() > 0,
            find_start_code_spec(input@, 0) == Some(first_start as int),
            k <= first_start,
            forall|i: int| 0 <= i < k ==> input@[i] == 0,
        decreases first_start - k,
    {
        if input[k] != 0 {
            proof {
                assert(input@[k as int] != 0);
                assert(!(forall|i: int| 0 <= i < first_start ==> input@[i] == 0));
            }
            return Err(
                Error::invalid_input("Annex B input has non-zero bytes before the first start code"),
            );
        }
        k += 1;
    }
    let mut cursor = first_start + first_len;
    loop
        invariant
            cursor <= input@.len(),
            input@.len() == total,
            find_start_code_spec(input@, 0) == Some(first_start as int),
            forall|i: int| 0 <= i < first_start ==> input@[i] == 0,
            scan_annexb_spec(input@) == match scan_annexb_from(input@, cursor as int) {
                Some(rest) => Some(slice_views(nals@) + rest),
                None => None::<Seq<Seq<u8>>>,
            },
        decreases input@.len() - cursor,
    {
        proof {
            lemma_find_start_code(input@, cursor as int);
        }
        match find_start_code(input, cursor) {
            Some((next_start, next_len)) => {
                proof {
                    assert(next_start + next_len <= input@.len());
                }
                let next_cursor = next_start + next_len;
                let end = trim_zeros(input, cursor, next_start);
                if end == cursor {
                    return Err(Error::invalid_input("Annex B input has an empty NAL unit"));
                }
                proof {
                    lemma_trim(input@, cursor as int, next_start as int);
                }
                let ghost old_views = slice_views(nals@);
                nals.push(&input[cursor..end]);
                proof {
                    assert(slice_views(nals@) =~= old_views + seq![input@.subrange(cursor as int, end as int)]);
                    match scan_annexb_from(input@, (next_start + next_len) as int) {
                        Some(rest) => {
                            assert(old_views + (seq![input@.subrange(cursor as int, end as int)] + rest)
                                =~= slice_views(nals@) + rest);
                        },
                        None => {},
                    }
                }
                cursor = next_cursor;
            },
            None => {
                let end = trim_zeros(input, cursor, input.len());
                if end == cursor {
                    return Err(Error::invalid_input("Annex B input has an empty NAL unit"));
                }
                proof {
                    lemma_trim(input@, cursor as int, input@.len() as int);
                }
                let ghost old_views = slice_views(nals@);
                nals.push(&input[cursor..end]);
                proof {
                    assert(slice_views(nals@) =~= old_views + seq![input@.subrange(cursor as int, end as int)]);
                }
                return Ok(nals);
            },
        }
    }
}

/// Big-endian value of the `length_size` bytes at `pos`.
fn read_length_field(input: &[u8], pos: usize, length_size: LengthSize) -> (r: u32)
    requires
        pos + length_size.width() <= input@.len(),
    ensures
        r == be_value(input@, pos as int, length_size.width()),
{
    proof {
        reveal_with_fuel(be_value, 5);
    }
    match length_size {
        LengthSize::OneByte => input[pos] as u32,
        LengthSize::TwoBytes => (input[pos] as u32) * 256 + input[pos + 1] as u32,
        LengthSize::FourBytes => {
            let b0 = input[pos] as u32;
            let b1 = input[pos + 1] as u32;
            let b2 = input[pos + 2] as u32;
            let b3 = input[pos + 3] as u32;
            ((b0 * 256 + b1) * 256 + b2) * 256 + b3
        },
    }
}

/// Whether `len` fits the length field.
fn length_fits(len: usize, length_size: LengthSize) -> (r: bool)
    ensures
        r <==> len <= length_size.max_len(),
{
    match length_size {
        LengthSize::OneByte => len <= 0xff,
        LengthSize::TwoBytes => len <= 0xffff,
        LengthSize::FourBytes => len as u64 <= 0xffff_ffffu64,
    }
}

/// Appends `len` as a big-endian length field.
fn write_length_field(out: &mut Vec<u8>, len: usize, length_size: LengthSize)
    requires
        len <= length_size.max_len(),
    ensures
        final(out)@ == old(out)@ + be_bytes(len as nat, length_size.width()),
{
    proof {
        reveal_with_fuel(be_bytes, 5);
    }
    match length_size {
        LengthSize::OneByte => {
            out.push(len as u8);
        },
        LengthSize::TwoBytes => {
            out.push((len / 256) as u8);
            out.push((len % 256) as u8);
        },
        LengthSize::FourBytes => {
            out.push((len / 0x100_0000) as u8);
            out.push(((len / 0x1_0000) % 256) as u8);
            out.push(((len / 256) % 256) as u8);
            out.push((len % 256) as u8);
            proof {
                let v = len as nat;
                assert(v / 256 / 256 == v / 0x1_0000) by (nonlinear_arith);
                assert(v / 256 / 256 / 256 == v / 0x100_0000) by (nonlinear_arith);
                assert((v / 0x100_0000) % 256 == v / 0x100_0000) by (nonlinear_arith)
                    requires v <= 0xffff_ffff;
            }
        },
    }
    proof {
        assert(final(out)@ =~= old(out)@ + be_bytes(len as nat, length_size.width()));
    }
}

/// Splits a length-prefixed NAL unit stream into its bodies, borrowing from `input`.
pub fn scan_length_prefixed_nals(input: &[u8], length_size: LengthSize) -> (r: Result<
    Vec<&[u8]>,
    Error,
>)
    ensures
        r is Ok <==> scan_length_prefixed_spec(input@, length_size) is Some,
        r matches Ok(v) ==> scan_length_prefixed_spec(input@, length_size) == Some(
            slice_views(v@),
        ),
        r matches Err(e) ==> e.kind == ErrorKind::InvalidInput,
{
    let w = length_size.bytes();
    let mut nals: Vec<&[u8]> = Vec::new();
    let mut cursor: usize = 0;
    proof {
        assert(slice_views(nals@) =~= Seq::<Seq<u8>>::empty());
    }
    while cursor < input.len()
        invariant
            cursor <= input@.len(),
            w == length_size.width(),
            scan_length_prefixed_spec(input@, length_size) == match scan_length_prefixed_from(
                input@,
                w as nat,
                cursor as int,
            ) {
                Some(rest) => Some(slice_views(nals@) + rest),
                None => None::<Seq<Seq<u8>>>,
            },
        decreases input@.len() - cursor,
    {
        if input.len() - cursor < w {
            return Err(Error::invalid_input("length field exceeds the end of the input"));
        }
        let len = read_length_field(input, cursor, length_size) as usize;
        cursor += w;
        if len == 0 {
            return Err(Error::invalid_input("NAL unit with length 0"));
        }
        if len > input.len() - cursor {
            return Err(Error::invalid_input("declared NAL length exceeds the remaining input"));
        }
        let ghost old_views = slice_views(nals@);
        nals.push(&input[cursor..cursor + len]);
        proof {
            assert(slice_views(nals@) =~= old_views + seq![
                input@.subrange(cursor as int, cursor + len),
            ]);
            match scan_length_prefixed_from(input@, w as nat, cursor + len) {
                Some(rest) => {
                    assert(old_views + (seq![input@.subrange(cursor as int, cursor + len)] + rest)
                        =~= slice_views(nals@) + rest);
                },
                None => {},
            }
        }
        cursor += len;
    }
    proof {
        assert(slice_views(nals@) + Seq::<Seq<u8>>::empty() =~= slice_views(nals@));
    }
    Ok(nals)
}

/// `length_prefixed_join` of a prefix extended by one unit.
pub proof fn lemma_length_prefixed_join_push(nals: Seq<Seq<u8>>, x: Seq<u8>, w: nat)
    ensures
        length_prefixed_join(nals.push(x), w) == length_prefixed_join(nals, w) + be_bytes(
            x.len(),
            w,
        ) + x,
    decreases nals.len(),
{
    if nals.len() == 0 {
        assert(nals.push(x).drop_first() =~= Seq::<Seq<u8>>::empty());
        assert(length_prefixed_join(Seq::<Seq<u8>>::empty(), w) == Seq::<u8>::empty());
        assert(nals.push(x)[0] == x);
        assert(length_prefixed_join(nals.push(x), w) =~= be_bytes(x.len(), w) + x);
        assert(length_prefixed_join(nals, w) + be_bytes(x.len(), w) + x =~= be_bytes(x.len(), w)
            + x);
    } else {
        assert(nals.push(x).drop_first() =~= nals.drop_first().push(x));
        lemma_length_prefixed_join_push(nals.drop_first(), x, w);
        assert(nals.push(x)[0] == nals[0]);
        assert(length_prefixed_join(nals.push(x), w) =~= be_bytes(nals[0].len(), w) + nals[0] + (
        length_prefixed_join(nals.drop_first(), w) + be_bytes(x.len(), w) + x));
        assert(length_prefixed_join(nals, w) =~= be_bytes(nals[0].len(), w) + nals[0]
            + length_prefixed_join(nals.drop_first(), w));
    }
}

pub proof fn lemma_annexb_join_push(nals: Seq<Seq<u8>>, x: Seq<u8>)
    ensures
        annexb_join(nals.push(x)) == annexb_join(nals) + seq![0u8, 0u8, 0u8, 1u8] + x,
{
    assert(nals.push(x).drop_last() =~= nals);
}

/// Converts an Annex B stream to the length-prefixed form; fails where the
/// stream is rejected or a unit does not fit the length field.
pub fn annexb_to_length_prefixed(input: &[u8], length_size: LengthSize) -> (r: Result<
    Vec<u8>,
    Error,
>)
    ensures
        r is Ok <==> annexb_to_length_prefixed_spec(input@, length_size) is Some,
        r matches Ok(v) ==> annexb_to_length_prefixed_spec(input@, length_size) == Some(v@),
        r matches Err(e) ==> e.kind == ErrorKind::InvalidInput,
{
    let nals = scan_annexb_nals(input)?;
    let ghost views = slice_views(nals@);
    let mut out: Vec<u8> = Vec::new();
    let mut i: usize = 0;
    while i < nals.len()
        invariant
            i <= nals@.len(),
            views == slice_views(nals@),
            scan_annexb_spec(input@) == Some(views),
            forall|j: int| 0 <= j < i ==> #[trigger] views[j].len() <= length_size.max_len(),
            out@ == length_prefixed_join(views.take(i as int), length_size.width()),
        decreases nals@.len() - i,
    {
        let nal = nals[i];
        if !length_fits(nal.len(), length_size) {
            proof {
                assert(views[i as int] == nal@);
                assert(views[i as int].len() > length_size.max_len());
            }
            return Err(Error::invalid_input("NAL unit is too long for the length field"));
        }
        write_length_field(&mut out, nal.len(), length_size);
        out.extend_from_slice(nal);
        proof {
            assert(views.take(i + 1) =~= views.take(i as int).push(views[i as int]));
            lemma_length_prefixed_join_push(views.take(i as int), views[i as int], length_size.width());
        }
        i += 1;
    }
    proof {
        assert(views.take(i as int) =~= views);
    }
    Ok(out)
}

/// Converts a length-prefixed stream to Annex B, putting a 4 byte start code
/// before each unit.
pub fn length_prefixed_to_annexb(input: &[u8], length_size: LengthSize) -> (r: Result<
    Vec<u8>,
    Error,
>)
    ensures
        r is Ok <==> length_prefixed_to_annexb_spec(input@, length_size) is Some,
        r matches Ok(v) ==> length_prefixed_to_annexb_spec(input@, length_size) == Some(v@),
        r matches Err(e) ==> e.kind == ErrorKind::InvalidInput,
{
    let nals = scan_length_prefixed_nals(input, length_size)?;
    let ghost views = slice_views(nals@);
    let mut out: Vec<u8> = Vec::new();
    let mut i: usize = 0;
    while i < nals.len()
        invariant
            i <= nals@.len(),
            views == slice_views(nals@),
            scan_length_prefixed_spec(input@, length_size) == Some(views),
            out@ == annexb_join(views.take(i as int)),
        decreases nals@.len() - i,
    {
        let nal = nals[i];
        out.push(0);
        out.push(0);
        out.push(0);
        out.push(1);
        out.extend_from_slice(nal);
        proof {
            assert(views.take(i + 1) =~= views.take(i as int).push(views[i as int]));
            lemma_annexb_join_push(views.take(i as int), views[i as int]);
            assert(out@ =~= annexb_join(views.take(i + 1)));
        }
        i += 1;
    }
    proof {
        assert(views.take(i as int) =~= views);
    }
    Ok(out)
}

} // verus!

verus! {

// ---------------------------------------------------------------------------
// Properties of the framing
// ---------------------------------------------------------------------------

proof fn lemma_be_value_congruent(s: Seq<u8>, p: int, b: Seq<u8>, n: nat)
    requires
        0 <= p,
        p + n <= s.len(),
        n <= b.len(),
        forall|i: int| 0 <= i < n ==> s[p + i] == b[i],
    ensures
        be_value(s, p, n) == be_value(b, 0, n),
    decreases n,
{
    if n > 0 {
        lemma_be_value_congruent(s, p, b, (n - 1) as nat);
        assert(s[p + n - 1] == b[n - 1]);
    }
}

proof fn lemma_be_value_of_bytes(v: nat, ls: LengthSize)
    requires
        v <= ls.max_len(),
    ensures
        be_bytes(v, ls.width()).len() == ls.width(),
        be_value(be_bytes(v, ls.width()), 0, ls.width()) == v,
{
    reveal_with_fuel(be_value, 5);
    reveal_with_fuel(be_bytes, 5);
    let w = ls.width();
    let b = be_bytes(v, w);
    match ls {
        LengthSize::OneByte => {
            assert(b =~= seq![(v % 256) as u8]);
        },
        LengthSize::TwoBytes => {
            assert(b =~= seq![((v / 256) % 256) as u8, (v % 256) as u8]);
            assert((v / 256) % 256 == v / 256) by (nonlinear_arith)
                requires v <= 0xffff;
            assert((v / 256) * 256 + v % 256 == v) by (nonlinear_arith);
        },
        LengthSize::FourBytes => {
            let a = v / 256;
            let c = a / 256;
            let d = c / 256;
            assert(b =~= seq![(d % 256) as u8, (c % 256) as u8, (a % 256) as u8, (v % 256) as u8]);
            assert(d % 256 == d) by (nonlinear_arith)
                requires v <= 0xffff_ffff, a == v / 256, c == a / 256, d == c / 256;
            assert(a * 256 + v % 256 == v) by (nonlinear_arith) requires a == v / 256;
            assert(c * 256 + a % 256 == a) by (nonlinear_arith) requires c == a / 256;
            assert(d * 256 + c % 256 == c) by (nonlinear_arith) requires d == c / 256;
        },
    }
}

#[verifier::spinoff_prover]
#[verifier::rlimit(40)]
proof fn lemma_scan_length_prefixed_join_from(p: Seq<u8>, nals: Seq<Seq<u8>>, ls: LengthSize)
    requires
        all_fit(nals, ls),
    ensures
        scan_length_prefixed_from(p + length_prefixed_join(nals, ls.width()), ls.width(), p.len() as int)
            == Some(nals),
    decreases nals.len(),
{
    let w = ls.width();
    let s = p + length_prefixed_join(nals, w);
    if nals.len() == 0 {
        assert(s =~= p);
        assert(nals =~= Seq::<Seq<u8>>::empty());
    } else {
        let n0 = nals[0];
        let rest = nals.drop_first();
        let hdr = be_bytes(n0.len(), w);
        lemma_be_value_of_bytes(n0.len(), ls);
        assert(0 < n0.len() <= ls.max_len());
        let p2 = p + hdr + n0;
        assert(s =~= p2 + length_prefixed_join(rest, w));
        let cursor = p.len() as int;
        assert forall|i: int| 0 <= i < w implies s[cursor + i] == hdr[i] by {}
        lemma_be_value_congruent(s, cursor, hdr, w);
        assert(be_value(s, cursor, w) == n0.len());
        let body = cursor + w;
        assert(s.subrange(body, body + n0.len()) =~= n0);
        assert forall|i: int| 0 <= i < rest.len() implies 0 < #[trigger] rest[i].len() <= ls.max_len() by {
            assert(rest[i] == nals[i + 1]);
        }
        lemma_scan_length_prefixed_join_from(p2, rest, ls);
        assert(p2.len() == body + n0.len());
        assert(seq![n0] + rest =~= nals);
    }
}

/// Reading a length-prefixed stream back yields exactly the NAL units that
/// were written into it (units non-empty and fitting the length field).
pub proof fn lemma_length_prefixed_roundtrip(nals: Seq<Seq<u8>>, ls: LengthSize)
    requires
        all_fit(nals, ls),
    ensures
        scan_length_prefixed_spec(length_prefixed_join(nals, ls.width()), ls) == Some(nals),
{
    lemma_scan_length_prefixed_join_from(Seq::empty(), nals, ls);
    assert(Seq::<u8>::empty() + length_prefixed_join(nals, ls.width()) =~= length_prefixed_join(
        nals,
        ls.width(),
    ));
}

proof fn lemma_scan_annexb_from_nonempty(s: Seq<u8>, cursor: int)
    ensures
        scan_annexb_from(s, cursor) matches Some(nals) ==> forall|i: int|
            0 <= i < nals.len() ==> #[trigger] nals[i].len() > 0,
    decreases s.len() - cursor,
{
    if 0 <= cursor <= s.len() {
        lemma_find_start_code(s, cursor);
        match find_start_code_spec(s, cursor) {
            Some(next) => {
                lemma_trim(s, cursor, next);
                lemma_scan_annexb_from_nonempty(s, next + start_code_len(s, next));
                let end = trim_trailing_zeros(s, cursor, next);
                if end != cursor {
                    if let Some(rest) = scan_annexb_from(s, next + start_code_len(s, next)) {
                        let nals = seq![s.subrange(cursor, end)] + rest;
                        assert forall|i: int| 0 <= i < nals.len() implies #[trigger] nals[i].len() > 0 by {
                            if i > 0 {
                                assert(nals[i] == rest[i - 1]);
                            }
                        }
                    }
                }
            },
            None => {
                lemma_trim(s, cursor, s.len() as int);
            },
        }
    }
}

/// Every unit produced by the Annex B scan is non-empty.
pub proof fn lemma_scan_annexb_nonempty(s: Seq<u8>)
    ensures
        scan_annexb_spec(s) matches Some(nals) ==> forall|i: int|
            0 <= i < nals.len() ==> #[trigger] nals[i].len() > 0,
{
    if s.len() > 0 {
        if let Some(first) = find_start_code_spec(s, 0) {
            lemma_scan_annexb_from_nonempty(s, first + start_code_len(s, first));
        }
    }
}

/// Converting an Annex B stream to the length-prefixed form and back to
/// Annex B re-frames the same NAL units behind 4 byte start codes.
pub proof fn lemma_annexb_through_length_prefixed(s: Seq<u8>, ls: LengthSize)
    requires
        annexb_to_length_prefixed_spec(s, ls) is Some,
    ensures
        length_prefixed_to_annexb_spec(annexb_to_length_prefixed_spec(s, ls).unwrap(), ls) == Some(
            annexb_join(scan_annexb_spec(s).unwrap()),
        ),
{
    let nals = scan_annexb_spec(s).unwrap();
    lemma_scan_annexb_nonempty(s);
    assert(all_fit(nals, ls));
    lemma_length_prefixed_roundtrip(nals, ls);
}

/// A NAL unit that Annex B framing carries unchanged: non-empty, not ending
/// in a zero byte (which would read as stuffing) and without the three byte
/// pattern `00 00 01` (which would read as a start code).
pub open spec fn annexb_safe(x: Seq<u8>) -> bool {
    &&& x.len() > 0
    &&& x.last() != 0
    &&& forall|i: int|
        0 <= i && i + 3 <= x.len() ==> !(#[trigger] x[i] == 0 && x[i + 1] == 0 && x[i + 2] == 1)
}

proof fn lemma_annexb_join_front(x: Seq<u8>, rest: Seq<Seq<u8>>)
    ensures
        annexb_join(seq![x] + rest) == seq![0u8, 0u8, 0u8, 1u8] + x + annexb_join(rest),
    decreases rest.len(),
{
    let sc = seq![0u8, 0u8, 0u8, 1u8];
    if rest.len() == 0 {
        assert((seq![x] + rest).drop_last() =~= Seq::<Seq<u8>>::empty());
        assert((seq![x] + rest).last() == x);
        assert(annexb_join(Seq::<Seq<u8>>::empty()) =~= Seq::<u8>::empty());
        assert(annexb_join(seq![x] + rest) =~= sc + x + annexb_join(rest));
    } else {
        assert((seq![x] + rest).drop_last() =~= seq![x] + rest.drop_last());
        assert((seq![x] + rest).last() == rest.last());
        lemma_annexb_join_front(x, rest.drop_last());
        assert(annexb_join(seq![x] + rest) =~= sc + x + annexb_join(rest));
    }
}

/// No start code begins inside a safe unit `x` placed at `c`, when what
/// follows it is the end of the input or a zero byte.
proof fn lemma_no_start_code_in_unit(s: Seq<u8>, c: int, x: Seq<u8>)
    requires
        0 <= c,
        c + x.len() <= s.len(),
        annexb_safe(x),
        forall|i: int| 0 <= i < x.len() ==> s[c + i] == #[trigger] x[i],
        c + x.len() == s.len() || s[c + x.len()] == 0,
    ensures
        forall|p: int| c <= p < c + x.len() ==> #[trigger] start_code_len(s, p) == 0,
{
    let end = c + x.len();
    assert forall|p: int| c <= p < end implies #[trigger] start_code_len(s, p) == 0 by {
        assert(s[end - 1] == x[x.len() - 1]);
        if p + 3 <= end {
            assert(s[p] == x[p - c] && s[p + 1] == x[p - c + 1] && s[p + 2] == x[p - c + 2]);
            assert(!(x[p - c] == 0 && x[p - c + 1] == 0 && x[p - c + 2] == 1));
            if p + 4 <= end {
                assert(s[p + 3] == x[p - c + 3]);
                assert(!(x[p - c + 1] == 0 && x[p - c + 2] == 0 && x[p - c + 3] == 1));
            }
        }
    }
}

proof fn lemma_find_skip(s: Seq<u8>, p: int, q: int)
    requires
        0 <= p <= q,
        forall|k: int| p <= k < q ==> #[trigger] start_code_len(s, k) == 0,
    ensures
        find_start_code_spec(s, p) == find_start_code_spec(s, q),
    decreases q - p,
{
    if p < q {
        lemma_find_skip(s, p + 1, q);
        assert(start_code_len(s, p) == 0);
    }
}

proof fn lemma_scan_annexb_from_join(a: Seq<u8>, nals: Seq<Seq<u8>>)
    requires
        nals.len() > 0,
        forall|i: int| 0 <= i < nals.len() ==> annexb_safe(#[trigger] nals[i]),
    ensures
        scan_annexb_from(a + annexb_join(nals), a.len() + 4int) == Some(nals),
    decreases nals.len(),
{
    let sc = seq![0u8, 0u8, 0u8, 1u8];
    let x = nals[0];
    let rest = nals.drop_first();
    assert(nals =~= seq![x] + rest);
    lemma_annexb_join_front(x, rest);
    let s = a + annexb_join(nals);
    let c: int = a.len() + 4int;
    let end: int = c + x.len();
    assert(s =~= (a + sc + x) + annexb_join(rest));
    assert(annexb_safe(x));
    assert forall|i: int| 0 <= i < x.len() implies s[c + i] == #[trigger] x[i] by {
        assert(s[c + i] == (a + sc + x)[c + i]);
    }
    if rest.len() == 0 {
        assert(annexb_join(rest) =~= Seq::<u8>::empty());
        assert(s.len() == end);
        lemma_no_start_code_in_unit(s, c, x);
        lemma_find_skip(s, c, end);
        assert(find_start_code_spec(s, end) is None);
        assert(s[end - 1] == x.last());
        assert(trim_trailing_zeros(s, c, s.len() as int) == end);
        assert(s.subrange(c, end) =~= x);
        assert(seq![x] =~= nals);
    } else {
        let y = rest[0];
        lemma_annexb_join_front(y, rest.drop_first());
        assert(rest =~= seq![y] + rest.drop_first());
        assert(s[end] == 0 && s[end + 1] == 0 && s[end + 2] == 0 && s[end + 3] == 1);
        lemma_no_start_code_in_unit(s, c, x);
        lemma_find_skip(s, c, end);
        assert(start_code_len(s, end) == 4);
        assert(find_start_code_spec(s, end) == Some(end));
        assert(s[end - 1] == x.last());
        assert(trim_trailing_zeros(s, c, end) == end);
        assert(s.subrange(c, end) =~= x);
        assert forall|i: int| 0 <= i < rest.len() implies annexb_safe(#[trigger] rest[i]) by {
            assert(rest[i] == nals[i + 1]);
        }
        lemma_scan_annexb_from_join(a + sc + x, rest);
        assert((a + sc + x).len() + 4 == end + 4);
    }
}

/// Annex B framing of safe units scans back to the same units.
proof fn lemma_scan_annexb_join(nals: Seq<Seq<u8>>)
    requires
        forall|i: int| 0 <= i < nals.len() ==> annexb_safe(#[trigger] nals[i]),
    ensures
        scan_annexb_spec(annexb_join(nals)) == Some(nals),
{
    if nals.len() == 0 {
        assert(annexb_join(nals) =~= Seq::<u8>::empty());
        assert(nals =~= Seq::<Seq<u8>>::empty());
    } else {
        let s = annexb_join(nals);
        assert(nals =~= seq![nals[0]] + nals.drop_first());
        lemma_annexb_join_front(nals[0], nals.drop_first());
        assert(start_code_len(s, 0) == 4);
        assert(find_start_code_spec(s, 0) == Some(0int));
        lemma_scan_annexb_from_join(Seq::empty(), nals);
        assert(Seq::<u8>::empty() + s =~= s);
    }
}

/// A length field read back: its value fits the field, and writing the
/// value gives the field's bytes again.
proof fn lemma_be_bytes_of_value(s: Seq<u8>, c: int, ls: LengthSize)
    requires
        0 <= c,
        c + ls.width() <= s.len(),
    ensures
        be_value(s, c, ls.width()) <= ls.max_len(),
        be_bytes(be_value(s, c, ls.width()), ls.width()) == s.subrange(c, c + ls.width()),
{
    reveal_with_fuel(be_value, 5);
    reveal_with_fuel(be_bytes, 5);
    let w = ls.width();
    let v = be_value(s, c, w);
    match ls {
        LengthSize::OneByte => {
            assert(be_bytes(v, w) =~= s.subrange(c, c + w));
        },
        LengthSize::TwoBytes => {
            let b0 = s[c] as int;
            let b1 = s[c + 1] as int;
            assert(v == b0 * 256 + b1);
            assert(v % 256 == b1 && v / 256 == b0 && v <= 0xffff) by (nonlinear_arith)
                requires v == b0 * 256 + b1, 0 <= b0 < 256, 0 <= b1 < 256;
            assert(be_bytes(v, w) =~= s.subrange(c, c + w));
        },
        LengthSize::FourBytes => {
            let b0 = s[c] as int;
            let b1 = s[c + 1] as int;
            let b2 = s[c + 2] as int;
            let b3 = s[c + 3] as int;
            let v1 = b0 * 256 + b1;
            let v2 = v1 * 256 + b2;
            assert(v == v2 * 256 + b3);
            assert(v % 256 == b3 && v / 256 == v2) by (nonlinear_arith)
                requires v == v2 * 256 + b3, 0 <= v2, 0 <= b3 < 256;
            assert(v2 % 256 == b2 && v2 / 256 == v1) by (nonlinear_arith)
                requires v2 == v1 * 256 + b2, 0 <= v1, 0 <= b2 < 256;
            assert(v1 % 256 == b1 && v1 / 256 == b0) by (nonlinear_arith)
                requires v1 == b0 * 256 + b1, 0 <= b0, 0 <= b1 < 256;
            assert(b0 % 256 == b0);
            assert(v <= 0xffff_ffff) by (nonlinear_arith)
                requires v == v2 * 256 + b3, v2 == v1 * 256 + b2, v1 == b0 * 256 + b1, 0 <= b0
                    < 256, 0 <= b1 < 256, 0 <= b2 < 256, 0 <= b3 < 256;
            assert(be_bytes(v, w) =~= s.subrange(c, c + w));
        },
    }
}

/// A length-prefixed stream is the length-prefixed join of the units it
/// scans to, each of which fits the length field.
proof fn lemma_scan_length_prefixed_inverse(s: Seq<u8>, ls: LengthSize, c: int)
    requires
        0 <= c <= s.len(),
        scan_length_prefixed_from(s, ls.width(), c) is Some,
    ensures
        all_fit(scan_length_prefixed_from(s, ls.width(), c).unwrap(), ls),
        s.subrange(c, s.len() as int) == length_prefixed_join(
            scan_length_prefixed_from(s, ls.width(), c).unwrap(),
            ls.width(),
        ),
    decreases s.len() - c,
{
    let w = ls.width();
    let nals = scan_length_prefixed_from(s, w, c).unwrap();
    if c >= s.len() {
        assert(nals =~= Seq::<Seq<u8>>::empty());
        assert(s.subrange(c, s.len() as int) =~= Seq::<u8>::empty());
    } else {
        let len = be_value(s, c, w);
        let body = c + w;
        lemma_be_bytes_of_value(s, c, ls);
        lemma_scan_length_prefixed_inverse(s, ls, body + len);
        let rest = scan_length_prefixed_from(s, w, body + len).unwrap();
        let x = s.subrange(body, body + len);
        assert(nals == seq![x] + rest);
        assert(nals[0] == x);
        assert(nals.drop_first() =~= rest);
        assert forall|i: int| 0 <= i < nals.len() implies 0 < #[trigger] nals[i].len() <= ls.max_len() by {
            if i > 0 {
                assert(nals[i] == rest[i - 1]);
            }
        }
        assert(s.subrange(c, s.len() as int) =~= s.subrange(c, body) + x + s.subrange(
            body + len,
            s.len() as int,
        ));
    }
}

/// Converting a length-prefixed stream to Annex B and back gives the stream
/// back, when its units are ones Annex B framing carries unchanged (see
/// [`annexb_safe`]).
pub proof fn lemma_length_prefixed_through_annexb(s: Seq<u8>, ls: LengthSize)
    requires
        scan_length_prefixed_spec(s, ls) matches Some(nals) && forall|i: int|
            0 <= i < nals.len() ==> annexb_safe(#[trigger] nals[i]),
    ensures
        length_prefixed_to_annexb_spec(s, ls) matches Some(a) && annexb_to_length_prefixed_spec(
            a,
            ls,
        ) == Some(s),
{
    let nals = scan_length_prefixed_spec(s, ls).unwrap();
    lemma_scan_length_prefixed_inverse(s, ls, 0);
    assert(s.subrange(0, s.len() as int) =~= s);
    lemma_scan_annexb_join(nals);
}

} // verus!

verus! {

/// Whether byte `i` of an EBSP is an `emulation_prevention_three_byte`: a
/// `0x03` right after two `0x00` bytes of the input.
pub open spec fn is_emulation_prevention(e: Seq<u8>, i: int) -> bool {
    i >= 2 && e[i - 2] == 0 && e[i - 1] == 0 && e[i] == 3
}

/// The RBSP of an EBSP: every byte but the emulation prevention bytes.
pub open spec fn rbsp_of(e: Seq<u8>) -> Seq<u8>
    decreases e.len(),
{
    if e.len() == 0 {
        Seq::empty()
    } else if is_emulation_prevention(e, e.len() - 1) {
        rbsp_of(e.drop_last())
    } else {
        rbsp_of(e.drop_last()).push(e.last())
    }
}

/// Removes the emulation prevention bytes of an EBSP, judged on the input
/// bytes (the RBSP `00 00 03` is `00 00 03 03` in the EBSP).
pub fn remove_emulation_prevention_bytes(ebsp: &[u8]) -> (r: Vec<u8>)
    ensures
        r@ == rbsp_of(ebsp@),
{
    let mut rbsp: Vec<u8> = Vec::new();
    let mut i: usize = 0;
    while i < ebsp.len()
        invariant
            i <= ebsp@.len(),
            rbsp@ == rbsp_of(ebsp@.take(i as int)),
        decreases ebsp@.len() - i,
    {
        proof {
            let t = ebsp@.take(i + 1);
            assert(t.drop_last() =~= ebsp@.take(i as int));
            assert(is_emulation_prevention(t, i as int) == is_emulation_prevention(ebsp@, i as int));
        }
        if i >= 2 && ebsp[i - 2] == 0 && ebsp[i - 1] == 0 && ebsp[i] == 0x03 {
            i += 1;
        } else {
            rbsp.push(ebsp[i]);
            i += 1;
        }
    }
    proof {
        assert(ebsp@.take(i as int) =~= ebsp@);
    }
    rbsp
}

} // verus!
