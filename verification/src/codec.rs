//! Big-endian field and box header encoding shared by the box codecs
//! (ISO/IEC 14496-12 4.2: `size`, `type`, `largesize`, `usertype`;
//! `FullBox` version and flags).
use vstd::prelude::*;

use crate::boxes::{BoxSize, BoxType, UnknownBox};
use crate::error::{Error, ErrorKind};
use crate::nal::{be_bytes, be_value};

verus! {

/// `256^n`.
pub open spec fn pow256(n: nat) -> nat
    decreases n,
{
    if n == 0 {
        1
    } else {
        256 * pow256((n - 1) as nat)
    }
}

pub proof fn lemma_pow256_values()
    ensures
        pow256(1) == 0x100,
        pow256(2) == 0x1_0000,
        pow256(3) == 0x100_0000,
        pow256(4) == 0x1_0000_0000,
        pow256(8) == 0x1_0000_0000_0000_0000,
{
    reveal_with_fuel(pow256, 9);
}

pub proof fn lemma_be_bytes_len(v: nat, n: nat)
    ensures
        be_bytes(v, n).len() == n,
    decreases n,
{
    if n > 0 {
        lemma_be_bytes_len(v / 256, (n - 1) as nat);
    }
}

/// `be_value` only reads its `n` bytes.
pub proof fn lemma_be_value_prefix(s: Seq<u8>, t: Seq<u8>, p: int, n: nat)
    requires
        0 <= p,
        p + n <= s.len(),
    ensures
        be_value(s + t, p, n) == be_value(s, p, n),
    decreases n,
{
    if n > 0 {
        lemma_be_value_prefix(s, t, p, (n - 1) as nat);
    }
}

/// `be_value` of a field after a prefix.
pub proof fn lemma_be_value_suffix(s: Seq<u8>, t: Seq<u8>, q: int, n: nat)
    requires
        0 <= q,
        q + n <= t.len(),
    ensures
        be_value(s + t, s.len() + q, n) == be_value(t, q, n),
    decreases n,
{
    if n > 0 {
        lemma_be_value_suffix(s, t, q, (n - 1) as nat);
        assert((s + t)[s.len() + q + n - 1] == t[q + n - 1]);
    }
}

/// Reading back a value written in `n` bytes gives the value.
pub proof fn lemma_be_roundtrip(v: nat, n: nat)
    requires
        v < pow256(n),
    ensures
        be_bytes(v, n).len() == n,
        be_value(be_bytes(v, n), 0, n) == v,
    decreases n,
{
    lemma_be_bytes_len(v, n);
    if n > 0 {
        let m = (n - 1) as nat;
        assert(v / 256 < pow256(m)) by (nonlinear_arith)
            requires
                v < 256 * pow256(m),
        ;
        lemma_be_roundtrip(v / 256, m);
        let pre = be_bytes(v / 256, m);
        let b = be_bytes(v, n);
        assert(b == pre.push((v % 256) as u8));
        assert(pre.push((v % 256) as u8) =~= pre + seq![(v % 256) as u8]);
        lemma_be_value_prefix(pre, seq![(v % 256) as u8], 0, m);
        assert(b[n - 1] == (v % 256) as u8);
    }
}

/// Appends `v` big-endian in `n` bytes.
pub fn put_be(out: &mut Vec<u8>, v: u64, n: usize)
    requires
        n <= 8,
    ensures
        final(out)@ == old(out)@ + be_bytes(v as nat, n as nat),
    decreases n,
{
    if n > 0 {
        put_be(out, v / 256, n - 1);
        out.push((v % 256) as u8);
        proof {
            let pre = old(out)@ + be_bytes((v / 256) as nat, (n - 1) as nat);
            assert(pre.push((v % 256) as u8) =~= old(out)@ + be_bytes((v / 256) as nat, (n - 1) as nat).push(
                (v % 256) as u8,
            ));
        }
    } else {
        proof {
            assert(old(out)@ + Seq::<u8>::empty() =~= old(out)@);
        }
    }
}

/// Appends bytes.
pub fn put_bytes(out: &mut Vec<u8>, bytes: &[u8])
    ensures
        final(out)@ == old(out)@ + bytes@,
{
    let mut i: usize = 0;
    while i < bytes.len()
        invariant
            i <= bytes@.len(),
            out@ == old(out)@ + bytes@.take(i as int),
        decreases bytes@.len() - i,
    {
        out.push(bytes[i]);
        proof {
            assert(bytes@.take(i + 1) =~= bytes@.take(i as int).push(bytes@[i as int]));
        }
        i += 1;
    }
    proof {
        assert(bytes@.take(i as int) =~= bytes@);
    }
}

/// Reads the big-endian value of `buf[pos..pos + n]`.
pub fn read_be(buf: &[u8], pos: usize, n: usize) -> (r: Result<u64, Error>)
    requires
        n <= 8,
    ensures
        r is Ok <==> pos + n <= buf@.len(),
        r matches Ok(v) ==> v == be_value(buf@, pos as int, n as nat) && v < pow256(n as nat),
        r matches Err(e) ==> e.kind == ErrorKind::InvalidData,
{
    if n > buf.len() || pos > buf.len() - n {
        return Err(Error::invalid_data("unexpected end of box data"));
    }
    let mut v: u64 = 0;
    let mut k: usize = 0;
    while k < n
        invariant
            n <= 8,
            pos + n <= buf@.len(),
            k <= n,
            v == be_value(buf@, pos as int, k as nat),
            v < pow256(k as nat),
            buf@.len() <= usize::MAX,
        decreases n - k,
    {
        proof {
            reveal_with_fuel(pow256, 9);
            assert(pow256(k as nat) <= pow256(7)) by {
                lemma_pow256_monotone(k as nat, 7);
            }
            assert(v * 256 + 255 < pow256((k + 1) as nat)) by (nonlinear_arith)
                requires
                    v < pow256(k as nat),
                    pow256((k + 1) as nat) == 256 * pow256(k as nat),
            ;
        }
        v = v * 256 + buf[pos + k] as u64;
        k += 1;
    }
    Ok(v)
}

pub proof fn lemma_pow256_monotone(a: nat, b: nat)
    requires
        a <= b,
    ensures
        pow256(a) <= pow256(b),
    decreases b,
{
    if a < b {
        lemma_pow256_monotone(a, (b - 1) as nat);
    }
}

/// The bytes of a box type: the four character code, or the 16 byte UUID.
pub open spec fn box_type_bytes(t: BoxType) -> Seq<u8> {
    match t {
        BoxType::Normal(b) => b@,
        BoxType::Uuid(b) => b@,
    }
}

/// The four bytes `uuid`.
pub open spec fn uuid_code() -> Seq<u8> {
    seq![0x75u8, 0x75, 0x69, 0x64]
}

/// A box of type `t` holding `payload`: a 32 bit size when the box fits
/// it, else `size` 1 and a 64 bit `largesize`; `uuid` types carry their
/// 16 byte user type after the size fields.
pub open spec fn box_bytes(t: BoxType, payload: Seq<u8>) -> Seq<u8> {
    let ext: nat = match t {
        BoxType::Normal(_) => 0,
        BoxType::Uuid(_) => 16,
    };
    let code = match t {
        BoxType::Normal(b) => b@,
        BoxType::Uuid(_) => uuid_code(),
    };
    let user = match t {
        BoxType::Normal(_) => Seq::<u8>::empty(),
        BoxType::Uuid(b) => b@,
    };
    let small = 8 + ext + payload.len();
    if small <= u32::MAX {
        be_bytes(small, 4) + code + user + payload
    } else {
        be_bytes(1, 4) + code + be_bytes(small + 8, 8) + user + payload
    }
}

/// The header of the box at the start of `s`: `(type, header length, box
/// size)`; a 32 bit size of 0 means the box runs to the end of `s`.
/// `None` when the header is cut off, the size is below the header length,
/// or the box runs past the end of `s`.
pub open spec fn box_header_spec(s: Seq<u8>) -> Option<(Seq<u8>, nat, nat)> {
    if s.len() < 8 {
        None
    } else {
        let size32 = be_value(s, 0, 4);
        let code = s.subrange(4, 8);
        let large = size32 == 1;
        if large && s.len() < 16 {
            None
        } else {
            let base: nat = if large { 16 } else { 8 };
            let size: nat = if large {
                be_value(s, 8, 8)
            } else if size32 == 0 {
                s.len()
            } else {
                size32
            };
            let uuid = code == uuid_code();
            let hl: nat = if uuid { base + 16 } else { base };
            if hl > s.len() || size < hl || size > s.len() {
                None
            } else {
                Some((if uuid { s.subrange(base as int, (base + 16) as int) } else { code }, hl, size))
            }
        }
    }
}

/// Makes a box type from a four character code.
pub fn fourcc(a: u8, b: u8, c: u8, d: u8) -> (r: BoxType)
    ensures
        r == BoxType::Normal([a, b, c, d]),
        box_type_bytes(r) == seq![a, b, c, d],
{
    let r = BoxType::Normal([a, b, c, d]);
    proof {
        assert([a, b, c, d]@ =~= seq![a, b, c, d]);
    }
    r
}

/// Appends a box of type `t` holding `payload` (see [`box_bytes`]).
pub fn put_box(out: &mut Vec<u8>, t: &BoxType, payload: &[u8])
    requires
        old(out)@.len() + payload@.len() + 40 <= usize::MAX,
    ensures
        final(out)@ == old(out)@ + box_bytes(*t, payload@),
{
    let ext: usize = match t {
        BoxType::Normal(_) => 0,
        BoxType::Uuid(_) => 16,
    };
    let small = 8 + ext + payload.len();
    let ghost o = out@;
    if small as u64 <= 0xffff_ffff {
        put_be(out, small as u64, 4);
        match t {
            BoxType::Normal(b) => {
                put_bytes(out, b.as_slice());
            },
            BoxType::Uuid(b) => {
                put_bytes(out, &[0x75u8, 0x75, 0x69, 0x64]);
                put_bytes(out, b.as_slice());
            },
        }
    } else {
        put_be(out, 1, 4);
        match t {
            BoxType::Normal(b) => {
                put_bytes(out, b.as_slice());
            },
            BoxType::Uuid(b) => {
                put_bytes(out, &[0x75u8, 0x75, 0x69, 0x64]);
            },
        }
        put_be(out, small as u64 + 8, 8);
        match t {
            BoxType::Normal(_) => {},
            BoxType::Uuid(b) => {
                put_bytes(out, b.as_slice());
            },
        }
    }
    put_bytes(out, payload);
    proof {
        let code = match *t {
            BoxType::Normal(b) => b@,
            BoxType::Uuid(_) => uuid_code(),
        };
        let user = match *t {
            BoxType::Normal(_) => Seq::<u8>::empty(),
            BoxType::Uuid(b) => b@,
        };
        assert([0x75u8, 0x75, 0x69, 0x64]@ =~= uuid_code());
        if (small as u64) <= 0xffff_ffff {
            assert(out@ =~= o + (be_bytes(small as nat, 4) + code + user + payload@));
        } else {
            assert(out@ =~= o + (be_bytes(1, 4) + code + be_bytes((small + 8) as nat, 8) + user + payload@));
        }
    }
}

/// Reads the header of the box at the start of `buf`: the type, the
/// header length, and the box size.
pub fn decode_box_header(buf: &[u8]) -> (r: Result<(BoxType, usize, usize), Error>)
    ensures
        r is Ok <==> box_header_spec(buf@) is Some,
        r matches Ok((t, hl, size)) ==> box_header_spec(buf@) == Some(
            (box_type_bytes(t), hl as nat, size as nat),
        ) && (t is Uuid <==> buf@.subrange(4, 8) == uuid_code()),
        r matches Err(e) ==> e.kind == ErrorKind::InvalidData,
{
    if buf.len() < 8 {
        return Err(Error::invalid_data("box header is truncated"));
    }
    let size32 = read_be(buf, 0, 4)?;
    let code = [buf[4], buf[5], buf[6], buf[7]];
    proof {
        assert(code@ =~= buf@.subrange(4, 8));
    }
    let large = size32 == 1;
    if large && buf.len() < 16 {
        return Err(Error::invalid_data("box largesize is truncated"));
    }
    let base: usize = if large {
        16
    } else {
        8
    };
    let size_value: u64 = if large {
        read_be(buf, 8, 8)?
    } else if size32 == 0 {
        buf.len() as u64
    } else {
        size32
    };
    let uuid = buf[4] == 0x75 && buf[5] == 0x75 && buf[6] == 0x69 && buf[7] == 0x64;
    proof {
        assert(uuid <==> buf@.subrange(4, 8) == uuid_code()) by {
            if buf@.subrange(4, 8) == uuid_code() {
                assert(buf@.subrange(4, 8)[0] == buf@[4]);
            }
            if uuid {
                assert(buf@.subrange(4, 8) =~= uuid_code());
            }
        }
    }
    let hl: usize = if uuid {
        base + 16
    } else {
        base
    };
    if hl > buf.len() || size_value < hl as u64 || size_value > buf.len() as u64 {
        return Err(Error::invalid_data("box size is out of range"));
    }
    proof {
        let sp = box_header_spec(buf@);
        assert(sp is Some);
        assert(sp.unwrap().1 == hl);
        assert(sp.unwrap().2 == size_value);
    }
    if uuid {
        let mut user = [0u8; 16];
        let mut k: usize = 0;
        while k < 16
            invariant
                k <= 16,
                base + 16 <= buf@.len(),
                buf@.len() <= usize::MAX,
                forall|i: int| 0 <= i < k ==> user@[i] == buf@[base + i],
            decreases 16 - k,
        {
            user[k] = buf[base + k];
            k += 1;
        }
        proof {
            assert(user@ =~= buf@.subrange(base as int, base + 16));
            assert(user@.len() == 16);
            assert(uuid_code().len() == 4);
            assert(user@ != uuid_code());
            assert(box_header_spec(buf@).unwrap().0 == user@);
            assert(box_type_bytes(BoxType::Uuid(user)) == user@);
        }
        Ok((BoxType::Uuid(user), hl, size_value as usize))
    } else {
        proof {
            assert(code@ != uuid_code());
            assert(box_header_spec(buf@).unwrap().0 == code@);
            assert(box_type_bytes(BoxType::Normal(code)) == code@);
        }
        Ok((BoxType::Normal(code), hl, size_value as usize))
    }
}

} // verus!

verus! {

/// Concatenation of records.
pub open spec fn concat_records(recs: Seq<Seq<u8>>) -> Seq<u8>
    decreases recs.len(),
{
    if recs.len() == 0 {
        Seq::empty()
    } else {
        concat_records(recs.drop_last()) + recs.last()
    }
}

/// Records of `width` bytes each sit at multiples of `width`.
pub proof fn lemma_concat_records(recs: Seq<Seq<u8>>, width: nat)
    requires
        forall|i: int| 0 <= i < recs.len() ==> (#[trigger] recs[i]).len() == width,
    ensures
        concat_records(recs).len() == recs.len() * width,
        forall|i: int, j: int|
            0 <= i < recs.len() && 0 <= j < width ==> #[trigger] concat_records(recs)[i * width + j]
                == #[trigger] recs[i][j],
    decreases recs.len(),
{
    if recs.len() > 0 {
        let pre = recs.drop_last();
        lemma_concat_records(pre, width);
        let n = recs.len() - 1;
        assert((n * width) + width == recs.len() * width) by (nonlinear_arith)
            requires
                n == recs.len() - 1,
        ;
        assert forall|i: int, j: int|
            0 <= i < recs.len() && 0 <= j < width implies #[trigger] concat_records(recs)[i * width + j]
            == #[trigger] recs[i][j] by {
            if i < n {
                assert(i * width + j < n * width) by (nonlinear_arith)
                    requires
                        0 <= i < n,
                        0 <= j < width,
                ;
                assert(pre[i] == recs[i]);
            } else {
                assert(i * width + j == n * width + j) by (nonlinear_arith)
                    requires
                        i == n,
                ;
            }
        }
    }
}

/// `concat_records` of a prefix grown by one record.
pub proof fn lemma_concat_records_push(recs: Seq<Seq<u8>>, k: int)
    requires
        0 <= k < recs.len(),
    ensures
        concat_records(recs.take(k + 1)) == concat_records(recs.take(k)) + recs[k],
{
    assert(recs.take(k + 1).drop_last() =~= recs.take(k));
}

/// A big-endian field read inside a sub-range reads the same bytes.
pub proof fn lemma_be_value_within(s: Seq<u8>, b: Seq<u8>, off: int, p: int, n: nat)
    requires
        0 <= off,
        0 <= p,
        p + n <= b.len(),
        off + b.len() <= s.len(),
        forall|i: int| 0 <= i < b.len() ==> s[off + i] == b[i],
    ensures
        be_value(s, off + p, n) == be_value(b, p, n),
    decreases n,
{
    if n > 0 {
        lemma_be_value_within(s, b, off, p, (n - 1) as nat);
        assert(s[off + p + n - 1] == b[p + n - 1]);
    }
}

/// The header of a box written by [`box_bytes`] with a four character
/// code reads back, and the payload follows it.
pub proof fn lemma_box_bytes_header(code: [u8; 4], payload: Seq<u8>)
    requires
        code@ != uuid_code(),
        8 + payload.len() <= u64::MAX - 8,
    ensures
        ({
            let s = box_bytes(BoxType::Normal(code), payload);
            let hl: nat = if 8 + payload.len() <= u32::MAX { 8 } else { 16 };
            &&& s.len() == hl + payload.len()
            &&& box_header_spec(s) == Some((code@, hl, s.len()))
            &&& s.subrange(hl as int, s.len() as int) == payload
        }),
{
    let s = box_bytes(BoxType::Normal(code), payload);
    let small = 8 + payload.len();
    lemma_pow256_values();
    if small <= u32::MAX {
        lemma_be_roundtrip(small, 4);
        let h = be_bytes(small, 4);
        assert(s == h + code@ + Seq::<u8>::empty() + payload);
        assert(s =~= h + (code@ + payload));
        lemma_be_value_prefix(h, code@ + payload, 0, 4);
        assert(s.subrange(4, 8) =~= code@);
        assert(s.subrange(8, s.len() as int) =~= payload);
        assert(be_value(s, 0, 4) == small);
        assert(small != 1 && small != 0);
    } else {
        lemma_be_roundtrip(1, 4);
        lemma_be_roundtrip(small + 8, 8);
        let h = be_bytes(1, 4);
        let l = be_bytes((small + 8) as nat, 8);
        assert(s == h + code@ + l + Seq::<u8>::empty() + payload);
        assert(s =~= h + (code@ + l + payload));
        lemma_be_value_prefix(h, code@ + l + payload, 0, 4);
        assert(s.subrange(4, 8) =~= code@);
        assert(s =~= (h + code@) + (l + payload));
        lemma_be_value_suffix(h + code@, l + payload, 0, 8);
        lemma_be_value_prefix(l, payload, 0, 8);
        assert(s.subrange(16, s.len() as int) =~= payload);
    }
}

} // verus!

verus! {

/// The values written big-endian in `w` bytes each.
pub open spec fn be_list_bytes(vals: Seq<nat>, w: nat) -> Seq<u8> {
    concat_records(vals.map_values(|v: nat| be_bytes(v, w)))
}

/// `count` big-endian values of `w` bytes read from `p` at `at`.
pub open spec fn be_list_at(p: Seq<u8>, at: int, count: nat, w: nat) -> Seq<nat> {
    Seq::new(count, |i: int| be_value(p, at + w * i, w))
}

/// The values of a `u32` sequence.
pub open spec fn u32_vals(v: Seq<u32>) -> Seq<nat> {
    v.map_values(|x: u32| x as nat)
}

/// The values of a `u64` sequence.
pub open spec fn u64_vals(v: Seq<u64>) -> Seq<nat> {
    v.map_values(|x: u64| x as nat)
}

/// A list written by [`be_list_bytes`] after `prefix` and before `suffix` reads back.
pub proof fn lemma_be_list_roundtrip(prefix: Seq<u8>, vals: Seq<nat>, w: nat, suffix: Seq<u8>)
    requires
        w > 0,
        forall|i: int| 0 <= i < vals.len() ==> #[trigger] vals[i] < pow256(w),
    ensures
        be_list_bytes(vals, w).len() == vals.len() * w,
        be_list_at(prefix + be_list_bytes(vals, w) + suffix, prefix.len() as int, vals.len(), w)
            == vals,
{
    let recs = vals.map_values(|v: nat| be_bytes(v, w));
    assert forall|i: int| 0 <= i < recs.len() implies (#[trigger] recs[i]).len() == w by {
        lemma_be_bytes_len(vals[i], w);
    }
    lemma_concat_records(recs, w);
    let body = be_list_bytes(vals, w);
    let s = prefix + body + suffix;
    let got = be_list_at(s, prefix.len() as int, vals.len(), w);
    assert forall|i: int| 0 <= i < vals.len() implies #[trigger] got[i] == vals[i] by {
        lemma_be_roundtrip(vals[i], w);
        assert(0 <= i * w) by (nonlinear_arith)
            requires
                0 <= i,
        ;
        assert((i + 1) * w <= vals.len() * w) by (nonlinear_arith)
            requires
                i + 1 <= vals.len(),
        ;
        assert(w * i == i * w) by (nonlinear_arith);
        assert(i * w + w == (i + 1) * w) by (nonlinear_arith);
        assert(recs[i].len() == w);
        assert(s.len() == prefix.len() + vals.len() * w + suffix.len());
        assert forall|j: int| 0 <= j < w implies s[prefix.len() + i * w + j] == recs[i][j] by {
            assert(i * w + j < vals.len() * w) by (nonlinear_arith)
                requires
                    0 <= j < w,
                    (i + 1) * w <= vals.len() * w,
            ;
            assert(body[i * w + j] == recs[i][j]);
        }
        lemma_be_value_within(s, recs[i], prefix.len() + i * w, 0, w);
    }
    assert(got =~= vals);
}

/// Appends the `u32` values, 4 bytes each.
pub fn put_u32_list(out: &mut Vec<u8>, vals: &[u32])
    ensures
        final(out)@ == old(out)@ + be_list_bytes(u32_vals(vals@), 4),
{
    let ghost recs = u32_vals(vals@).map_values(|v: nat| be_bytes(v, 4));
    let mut i: usize = 0;
    while i < vals.len()
        invariant
            recs == u32_vals(vals@).map_values(|v: nat| be_bytes(v, 4)),
            i <= vals@.len(),
            out@ == old(out)@ + concat_records(recs.take(i as int)),
        decreases vals@.len() - i,
    {
        put_be(out, vals[i] as u64, 4);
        proof {
            lemma_concat_records_push(recs, i as int);
            assert(out@ =~= old(out)@ + concat_records(recs.take(i + 1)));
        }
        i += 1;
    }
    proof {
        assert(recs.take(i as int) =~= recs);
    }
}

/// Appends the `u64` values, 8 bytes each.
pub fn put_u64_list(out: &mut Vec<u8>, vals: &[u64])
    ensures
        final(out)@ == old(out)@ + be_list_bytes(u64_vals(vals@), 8),
{
    let ghost recs = u64_vals(vals@).map_values(|v: nat| be_bytes(v, 8));
    let mut i: usize = 0;
    while i < vals.len()
        invariant
            recs == u64_vals(vals@).map_values(|v: nat| be_bytes(v, 8)),
            i <= vals@.len(),
            out@ == old(out)@ + concat_records(recs.take(i as int)),
        decreases vals@.len() - i,
    {
        put_be(out, vals[i], 8);
        proof {
            lemma_concat_records_push(recs, i as int);
            assert(out@ =~= old(out)@ + concat_records(recs.take(i + 1)));
        }
        i += 1;
    }
    proof {
        assert(recs.take(i as int) =~= recs);
    }
}

/// Reads `count` big-endian values of `w` (4 or 8) bytes from `p` at `at`.
pub fn read_be_list(p: &[u8], at: usize, count: usize, w: usize) -> (r: Result<Vec<u64>, Error>)
    requires
        w == 4 || w == 8,
    ensures
        r is Ok <==> at + w * count <= p@.len(),
        r matches Ok(v) ==> u64_vals(v@) == be_list_at(p@, at as int, count as nat, w as nat),
        r matches Err(e) ==> e.kind == ErrorKind::InvalidData,
{
    if at > p.len() || (p.len() - at) / w < count {
        proof {
            assert(at + w * count > p@.len()) by (nonlinear_arith)
                requires
                    at > p@.len() || (p@.len() - at) / (w as int) < count,
                    w > 0,
            ;
        }
        return Err(Error::invalid_data("list runs past the end of the box"));
    }
    proof {
        assert(at + w * count <= p@.len()) by (nonlinear_arith)
            requires
                at <= p@.len(),
                (p@.len() - at) / (w as int) >= count,
                w > 0,
        ;
    }
    let mut out: Vec<u64> = Vec::new();
    let mut i: usize = 0;
    while i < count
        invariant
            w == 4 || w == 8,
            at + w * count <= p@.len(),
            p@.len() <= usize::MAX,
            i <= count,
            out@.len() == i,
            forall|k: int| 0 <= k < i ==> #[trigger] out@[k] as nat == be_value(p@, at + w * k, w as nat),
        decreases count - i,
    {
        proof {
            assert(at + w * i + w <= at + w * count) by (nonlinear_arith)
                requires
                    i < count,
            ;
        }
        let v = read_be(p, at + w * i, w)?;
        out.push(v);
        i += 1;
    }
    proof {
        assert(u64_vals(out@) =~= be_list_at(p@, at as int, count as nat, w as nat));
    }
    Ok(out)
}

} // verus!

verus! {

/// `be_value` of `n` bytes is below `256^n`.
pub proof fn lemma_be_value_bound(s: Seq<u8>, p: int, n: nat)
    ensures
        be_value(s, p, n) < pow256(n),
    decreases n,
{
    if n > 0 {
        lemma_be_value_bound(s, p, (n - 1) as nat);
        let m = (n - 1) as nat;
        assert(be_value(s, p, m) * 256 + s[p + n - 1] < 256 * pow256(m)) by (nonlinear_arith)
            requires
                be_value(s, p, m) < pow256(m),
                s[p + n - 1] < 256,
        ;
    }
}

/// A payload made of `head`, a 32 bit count, and the values in `w` bytes each.
pub open spec fn counted_list_payload(head: Seq<u8>, vals: Seq<nat>, w: nat) -> Seq<u8> {
    head + be_bytes(vals.len(), 4) + be_list_bytes(vals, w)
}

/// The values of a counted list payload whose count sits at `h`; `None`
/// when the payload ends before the count or the values.
pub open spec fn counted_list_at(p: Seq<u8>, h: nat, w: nat) -> Option<Seq<nat>> {
    if p.len() < h + 4 || h + 4 + w * be_value(p, h as int, 4) > p.len() {
        None
    } else {
        Some(be_list_at(p, (h + 4) as int, be_value(p, h as int, 4), w))
    }
}

/// A counted list reads back.
pub proof fn lemma_counted_list_roundtrip(head: Seq<u8>, vals: Seq<nat>, w: nat)
    requires
        w > 0,
        vals.len() <= u32::MAX,
        forall|i: int| 0 <= i < vals.len() ==> #[trigger] vals[i] < pow256(w),
    ensures
        counted_list_at(counted_list_payload(head, vals, w), head.len(), w) == Some(vals),
{
    lemma_pow256_values();
    lemma_be_roundtrip(vals.len(), 4);
    let c = be_bytes(vals.len(), 4);
    let body = be_list_bytes(vals, w);
    let p = counted_list_payload(head, vals, w);
    assert(p =~= head + (c + body));
    lemma_be_value_suffix(head, c + body, 0, 4);
    lemma_be_value_prefix(c, body, 0, 4);
    lemma_be_list_roundtrip(head + c, vals, w, Seq::empty());
    assert(head + c + body + Seq::<u8>::empty() =~= p);
}

/// Reads a counted list whose count sits at `h`, with `w` (4 or 8) bytes per value.
pub fn read_counted_list(p: &[u8], h: usize, w: usize) -> (r: Result<Vec<u64>, Error>)
    requires
        w == 4 || w == 8,
        h <= 8,
    ensures
        r is Ok <==> counted_list_at(p@, h as nat, w as nat) is Some,
        r matches Ok(v) ==> Some(u64_vals(v@)) == counted_list_at(p@, h as nat, w as nat),
        r matches Err(e) ==> e.kind == ErrorKind::InvalidData,
{
    let count = read_be(p, h, 4)?;
    proof {
        lemma_pow256_values();
    }
    read_be_list(p, h + 4, count as usize, w)
}

/// The values as `u32`s.
pub fn to_u32_list(v: &Vec<u64>) -> (r: Vec<u32>)
    requires
        forall|i: int| 0 <= i < v@.len() ==> #[trigger] v@[i] <= u32::MAX,
    ensures
        u32_vals(r@) == u64_vals(v@),
{
    let mut out: Vec<u32> = Vec::new();
    let mut i: usize = 0;
    while i < v.len()
        invariant
            i <= v@.len(),
            forall|k: int| 0 <= k < v@.len() ==> #[trigger] v@[k] <= u32::MAX,
            out@.len() == i,
            forall|k: int| 0 <= k < i ==> #[trigger] out@[k] as nat == v@[k] as nat,
        decreases v@.len() - i,
    {
        out.push(v[i] as u32);
        i += 1;
    }
    proof {
        assert(u32_vals(out@) =~= u64_vals(v@));
    }
    out
}

} // verus!

verus! {

/// `count` boxes one after another at the start of `q`, each as its type
/// code and its bytes; `None` when one of their headers does not read.
pub open spec fn take_boxes(q: Seq<u8>, count: nat) -> Option<Seq<(Seq<u8>, Seq<u8>)>>
    decreases count,
{
    if count == 0 {
        Some(Seq::empty())
    } else {
        match box_header_spec(q) {
            None => None,
            Some((code, _, size)) => match take_boxes(q.subrange(size as int, q.len() as int), (count - 1) as nat) {
                None => None,
                Some(rest) => Some(seq![(code, q.subrange(0, size as int))] + rest),
            },
        }
    }
}

/// The boxes that fill `q` exactly, each as its type code and its bytes;
/// `None` when one of their headers does not read.
pub open spec fn split_boxes(q: Seq<u8>) -> Option<Seq<(Seq<u8>, Seq<u8>)>>
    decreases q.len(),
{
    if q.len() == 0 {
        Some(Seq::empty())
    } else {
        match box_header_spec(q) {
            None => None,
            Some((code, _, size)) => if size == 0 || size > q.len() {
                None
            } else {
                match split_boxes(q.subrange(size as int, q.len() as int)) {
                    None => None,
                    Some(rest) => Some(seq![(code, q.subrange(0, size as int))] + rest),
                }
            },
        }
    }
}

/// `done` put in front of the boxes in `o`.
pub open spec fn prepend_boxes(
    done: Seq<(Seq<u8>, Seq<u8>)>,
    o: Option<Seq<(Seq<u8>, Seq<u8>)>>,
) -> Option<Seq<(Seq<u8>, Seq<u8>)>> {
    match o {
        None => None,
        Some(r) => Some(done + r),
    }
}

/// A box header always claims at least its 8 bytes and at most the input.
pub proof fn lemma_box_header_bounds(s: Seq<u8>)
    requires
        box_header_spec(s) is Some,
    ensures
        8 <= box_header_spec(s).unwrap().1 <= box_header_spec(s).unwrap().2 <= s.len(),
{
}

/// Whether `u` is what the box `c` holds: its type, its size field as
/// written (`largesize` when the 32 bit size is 1), and its payload.
pub open spec fn unknown_matches(u: UnknownBox, c: Seq<u8>) -> bool {
    match box_header_spec(c) {
        None => false,
        Some((code, hl, size)) => {
            &&& box_type_bytes(u.box_type) == code
            &&& u.payload@ == c.subrange(hl as int, size as int)
            &&& u.box_size == if be_value(c, 0, 4) == 1 {
                BoxSize::U64(size as u64)
            } else {
                BoxSize::U32(be_value(c, 0, 4) as u32)
            }
        },
    }
}

impl UnknownBox {
    /// Decodes the box at the start of `buf` without interpreting its
    /// payload, returning it and its size.
    pub fn decode(buf: &[u8]) -> (r: Result<(UnknownBox, usize), Error>)
        ensures
            r is Ok <==> box_header_spec(buf@) is Some,
            r matches Ok((u, n)) ==> unknown_matches(u, buf@) && n == box_header_spec(buf@).unwrap().2,
            r matches Err(e) ==> e.kind == ErrorKind::InvalidData,
    {
        let (t, hl, size) = decode_box_header(buf)?;
        proof {
            lemma_box_header_bounds(buf@);
        }
        let size32 = read_be(buf, 0, 4)?;
        let box_size = if size32 == 1 {
            BoxSize::U64(size as u64)
        } else {
            BoxSize::U32(size32 as u32)
        };
        let payload = vstd::slice::slice_to_vec(&buf[hl..size]);
        Ok((UnknownBox { box_type: t, box_size, payload }, size))
    }
}

} // verus!

verus! {

/// A box header reads the same from the box's own bytes as from the
/// input it starts.
pub proof fn lemma_box_header_prefix(s: Seq<u8>)
    requires
        box_header_spec(s) is Some,
    ensures
        box_header_spec(s.subrange(0, box_header_spec(s).unwrap().2 as int)) == box_header_spec(s),
{
    let (code, hl, size) = box_header_spec(s).unwrap();
    let t = s.subrange(0, size as int);
    assert forall|i: int| 0 <= i < t.len() implies s[0 + i] == t[i] by {}
    lemma_be_value_within(s, t, 0, 0, 4);
    assert(t.subrange(4, 8) =~= s.subrange(4, 8));
    if be_value(s, 0, 4) == 1 {
        lemma_be_value_within(s, t, 0, 8, 8);
    }
    if be_value(s, 0, 4) == 0 {
        assert(t =~= s);
    }
    let base: int = if be_value(s, 0, 4) == 1 {
        16
    } else {
        8
    };
    if s.subrange(4, 8) == uuid_code() {
        assert(base + 16 <= hl);
        assert(t.subrange(base, base + 16) =~= s.subrange(base, base + 16));
    }
}

} // verus!

verus! {

/// The widths of fields `(value, width)`.
pub open spec fn field_widths(fs: Seq<(nat, nat)>) -> Seq<nat> {
    fs.map_values(|f: (nat, nat)| f.1)
}

/// The values of fields `(value, width)`.
pub open spec fn field_values(fs: Seq<(nat, nat)>) -> Seq<nat> {
    fs.map_values(|f: (nat, nat)| f.0)
}

/// The sum of the widths.
pub open spec fn width_sum(ws: Seq<nat>) -> nat
    decreases ws.len(),
{
    if ws.len() == 0 {
        0
    } else {
        width_sum(ws.drop_last()) + ws.last()
    }
}

/// Fields `(value, width)` written big-endian one after another.
pub open spec fn fields_bytes(fs: Seq<(nat, nat)>) -> Seq<u8>
    decreases fs.len(),
{
    if fs.len() == 0 {
        Seq::empty()
    } else {
        fields_bytes(fs.drop_last()) + be_bytes(fs.last().0, fs.last().1)
    }
}

/// The values of fields of widths `ws` read one after another from `p` at `at`.
pub open spec fn fields_at(p: Seq<u8>, at: int, ws: Seq<nat>) -> Seq<nat> {
    Seq::new(ws.len(), |i: int| be_value(p, at + width_sum(ws.take(i)), ws[i]))
}

/// The exec fields as mathematical ones.
pub open spec fn fields_view(fs: Seq<(u64, usize)>) -> Seq<(nat, nat)> {
    fs.map_values(|f: (u64, usize)| (f.0 as nat, f.1 as nat))
}

/// The exec widths as mathematical ones.
pub open spec fn widths_view(ws: Seq<usize>) -> Seq<nat> {
    ws.map_values(|w: usize| w as nat)
}

/// Every value fits its width.
pub open spec fn fields_fit(fs: Seq<(nat, nat)>) -> bool {
    forall|i: int| 0 <= i < fs.len() ==> (#[trigger] fs[i]).0 < pow256(fs[i].1)
}

/// A prefix of the widths sums to no more than all of them.
pub proof fn lemma_width_sum_take(ws: Seq<nat>, k: int)
    requires
        0 <= k <= ws.len(),
    ensures
        width_sum(ws.take(k)) <= width_sum(ws),
        k < ws.len() ==> width_sum(ws.take(k + 1)) == width_sum(ws.take(k)) + ws[k],
    decreases ws.len() - k,
{
    if k < ws.len() {
        assert(ws.take(k + 1).drop_last() =~= ws.take(k));
        lemma_width_sum_take(ws, k + 1);
    } else {
        assert(ws.take(k) =~= ws);
    }
}

/// The fields take as many bytes as their widths sum to, and read back.
pub proof fn lemma_fields_roundtrip(prefix: Seq<u8>, fs: Seq<(nat, nat)>, suffix: Seq<u8>)
    requires
        fields_fit(fs),
    ensures
        fields_bytes(fs).len() == width_sum(field_widths(fs)),
        fields_at(prefix + fields_bytes(fs) + suffix, prefix.len() as int, field_widths(fs))
            == field_values(fs),
    decreases fs.len(),
{
    let ws = field_widths(fs);
    if fs.len() == 0 {
        assert(fields_at(prefix + fields_bytes(fs) + suffix, prefix.len() as int, ws) =~= field_values(fs));
    } else {
        let pre = fs.drop_last();
        let last = fs.last();
        let lb = be_bytes(last.0, last.1);
        assert(fields_fit(pre)) by {
            assert forall|i: int| 0 <= i < pre.len() implies (#[trigger] pre[i]).0 < pow256(pre[i].1) by {
                assert(pre[i] == fs[i]);
            }
        }
        lemma_fields_roundtrip(prefix, pre, lb + suffix);
        lemma_be_roundtrip(last.0, last.1);
        let wp = field_widths(pre);
        assert(ws.drop_last() =~= wp);
        let s = prefix + fields_bytes(fs) + suffix;
        assert(s =~= prefix + fields_bytes(pre) + (lb + suffix));
        let got = fields_at(s, prefix.len() as int, ws);
        let old_got = fields_at(s, prefix.len() as int, wp);
        assert forall|i: int| 0 <= i < fs.len() implies #[trigger] got[i] == field_values(fs)[i] by {
            if i < pre.len() {
                assert(ws.take(i) =~= wp.take(i));
                assert(old_got[i] == field_values(pre)[i]);
                assert(pre[i] == fs[i]);
            } else {
                assert(ws.take(i) =~= wp);
                assert(s =~= (prefix + fields_bytes(pre)) + (lb + suffix));
                lemma_be_value_suffix(prefix + fields_bytes(pre), lb + suffix, 0, last.1);
                lemma_be_value_prefix(lb, suffix, 0, last.1);
            }
        }
        assert(got =~= field_values(fs));
    }
}

/// Appends the fields `(value, width)`, each at most 8 bytes wide.
pub fn put_fields(out: &mut Vec<u8>, fs: &[(u64, usize)])
    requires
        forall|i: int| 0 <= i < fs@.len() ==> (#[trigger] fs@[i]).1 <= 8,
    ensures
        final(out)@ == old(out)@ + fields_bytes(fields_view(fs@)),
{
    let mut i: usize = 0;
    while i < fs.len()
        invariant
            i <= fs@.len(),
            forall|k: int| 0 <= k < fs@.len() ==> (#[trigger] fs@[k]).1 <= 8,
            out@ == old(out)@ + fields_bytes(fields_view(fs@.take(i as int))),
        decreases fs@.len() - i,
    {
        let (v, w) = fs[i];
        put_be(out, v, w);
        proof {
            let t = fields_view(fs@.take(i + 1));
            assert(t.drop_last() =~= fields_view(fs@.take(i as int)));
            assert(t.last() == (v as nat, w as nat));
            assert(out@ =~= old(out)@ + fields_bytes(t));
        }
        i += 1;
    }
    proof {
        assert(fs@.take(i as int) =~= fs@);
    }
}

/// Reads fields of widths `ws` (each at most 8) one after another from `p` at `at`.
pub fn read_fields(p: &[u8], at: usize, ws: &[usize]) -> (r: Result<Vec<u64>, Error>)
    requires
        forall|i: int| 0 <= i < ws@.len() ==> (#[trigger] ws@[i]) <= 8,
    ensures
        r is Ok <==> at + width_sum(widths_view(ws@)) <= p@.len(),
        r matches Ok(v) ==> u64_vals(v@) == fields_at(p@, at as int, widths_view(ws@)),
        r matches Err(e) ==> e.kind == ErrorKind::InvalidData,
{
    let ghost wv = widths_view(ws@);
    if at > p.len() {
        proof {
            assert(wv.take(0) =~= Seq::<nat>::empty());
            lemma_width_sum_take(wv, 0);
        }
        return Err(Error::invalid_data("fields start past the end of the box"));
    }
    let mut out: Vec<u64> = Vec::new();
    let mut pos: usize = at;
    let mut i: usize = 0;
    proof {
        assert(wv.take(0) =~= Seq::<nat>::empty());
    }
    while i < ws.len()
        invariant
            wv == widths_view(ws@),
            i <= ws@.len(),
            forall|k: int| 0 <= k < ws@.len() ==> (#[trigger] ws@[k]) <= 8,
            pos == at + width_sum(wv.take(i as int)),
            pos <= p@.len(),
            p@.len() <= usize::MAX,
            out@.len() == i,
            forall|k: int| 0 <= k < i ==> (#[trigger] out@[k]) as nat == be_value(
                p@,
                at + width_sum(wv.take(k)),
                wv[k],
            ),
        decreases ws@.len() - i,
    {
        let w = ws[i];
        proof {
            lemma_width_sum_take(wv, i as int);
        }
        let v = match read_be(p, pos, w) {
            Ok(v) => v,
            Err(e) => {
                proof {
                    lemma_width_sum_take(wv, i + 1);
                }
                return Err(e);
            },
        };
        out.push(v);
        pos = pos + w;
        i += 1;
    }
    proof {
        assert(wv.take(i as int) =~= wv);
        assert(u64_vals(out@) =~= fields_at(p@, at as int, wv));
    }
    Ok(out)
}

} // verus!

verus! {

/// The fields take as many bytes as their widths sum to.
pub proof fn lemma_fields_bytes_len(fs: Seq<(nat, nat)>)
    ensures
        fields_bytes(fs).len() == width_sum(field_widths(fs)),
    decreases fs.len(),
{
    if fs.len() > 0 {
        lemma_fields_bytes_len(fs.drop_last());
        lemma_be_bytes_len(fs.last().0, fs.last().1);
        assert(field_widths(fs).drop_last() =~= field_widths(fs.drop_last()));
    }
}

/// Widths of at most 8 bytes each sum to at most 8 times their number.
pub proof fn lemma_width_sum_bound(ws: Seq<nat>)
    requires
        forall|i: int| 0 <= i < ws.len() ==> #[trigger] ws[i] <= 8,
    ensures
        width_sum(ws) <= 8 * ws.len(),
    decreases ws.len(),
{
    if ws.len() > 0 {
        let pre = ws.drop_last();
        assert forall|i: int| 0 <= i < pre.len() implies #[trigger] pre[i] <= 8 by {
            assert(pre[i] == ws[i]);
        }
        lemma_width_sum_bound(pre);
    }
}

/// `fields_view` of a grown vector.
pub proof fn lemma_fields_view_push(s: Seq<(u64, usize)>, x: (u64, usize))
    ensures
        fields_view(s.push(x)) == fields_view(s).push((x.0 as nat, x.1 as nat)),
{
    assert(fields_view(s.push(x)) =~= fields_view(s).push((x.0 as nat, x.1 as nat)));
}

/// `widths_view` of a grown vector.
pub proof fn lemma_widths_view_push(s: Seq<usize>, x: usize)
    ensures
        widths_view(s.push(x)) == widths_view(s).push(x as nat),
{
    assert(widths_view(s.push(x)) =~= widths_view(s).push(x as nat));
}

} // verus!

verus! {

/// An unknown box written back with the size field it was read with: a
/// 32 bit size, or size 1 and a 64 bit `largesize`; `uuid` types carry
/// their 16 byte user type.
pub open spec fn unknown_box_bytes(u: UnknownBox) -> Seq<u8> {
    let code = match u.box_type {
        BoxType::Normal(b) => b@,
        BoxType::Uuid(_) => uuid_code(),
    };
    let user = match u.box_type {
        BoxType::Normal(_) => Seq::<u8>::empty(),
        BoxType::Uuid(b) => b@,
    };
    match u.box_size {
        BoxSize::U32(n) => be_bytes(n as nat, 4) + code + user + u.payload@,
        BoxSize::U64(n) => be_bytes(1, 4) + code + be_bytes(n as nat, 8) + user + u.payload@,
    }
}

/// Boxes written one after another.
pub open spec fn unknown_boxes_bytes(us: Seq<UnknownBox>) -> Seq<u8> {
    concat_records(us.map_values(|u: UnknownBox| unknown_box_bytes(u)))
}

impl UnknownBox {
    /// Encodes the box with the size field it holds.
    pub fn encode(&self) -> (r: Vec<u8>)
        ensures
            r@ == unknown_box_bytes(*self),
    {
        let mut out: Vec<u8> = Vec::new();
        let ghost code = match self.box_type {
            BoxType::Normal(b) => b@,
            BoxType::Uuid(_) => uuid_code(),
        };
        let ghost user = match self.box_type {
            BoxType::Normal(_) => Seq::<u8>::empty(),
            BoxType::Uuid(b) => b@,
        };
        match self.box_size {
            BoxSize::U32(n) => {
                put_be(&mut out, n as u64, 4);
            },
            BoxSize::U64(_) => {
                put_be(&mut out, 1, 4);
            },
        }
        match &self.box_type {
            BoxType::Normal(b) => {
                put_bytes(&mut out, b.as_slice());
            },
            BoxType::Uuid(_) => {
                put_bytes(&mut out, &[0x75u8, 0x75, 0x69, 0x64]);
                proof {
                    assert([0x75u8, 0x75, 0x69, 0x64]@ =~= uuid_code());
                }
            },
        }
        match self.box_size {
            BoxSize::U32(_) => {},
            BoxSize::U64(n) => {
                put_be(&mut out, n, 8);
            },
        }
        match &self.box_type {
            BoxType::Normal(_) => {},
            BoxType::Uuid(b) => {
                put_bytes(&mut out, b.as_slice());
            },
        }
        put_bytes(&mut out, self.payload.as_slice());
        proof {
            assert(out@ =~= unknown_box_bytes(*self));
        }
        out
    }
}

/// Encodes the boxes one after another.
pub fn encode_unknown_boxes(out: &mut Vec<u8>, us: &Vec<UnknownBox>)
    ensures
        final(out)@ == old(out)@ + unknown_boxes_bytes(us@),
{
    let ghost recs = us@.map_values(|u: UnknownBox| unknown_box_bytes(u));
    let mut i: usize = 0;
    proof {
        assert(recs.take(0) =~= Seq::<Seq<u8>>::empty());
    }
    while i < us.len()
        invariant
            recs == us@.map_values(|u: UnknownBox| unknown_box_bytes(u)),
            i <= us@.len(),
            out@ == old(out)@ + concat_records(recs.take(i as int)),
        decreases us@.len() - i,
    {
        let b = us[i].encode();
        put_bytes(out, b.as_slice());
        proof {
            lemma_concat_records_push(recs, i as int);
            assert(out@ =~= old(out)@ + concat_records(recs.take(i + 1)));
        }
        i += 1;
    }
    proof {
        assert(recs.take(i as int) =~= recs);
    }
}

} // verus!
