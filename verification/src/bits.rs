//! MSB-first bit reading over a byte slice, with the fixed width `u(n)`,
//! Exp-Golomb `ue(v)` / `se(v)` and AV1 `uvlc()` codes.
use vstd::prelude::*;

use crate::error::{Error, ErrorKind};

verus! {

/// `2^n`.
pub open spec fn two_pow(n: nat) -> nat
    decreases n,
{
    if n == 0 {
        1
    } else {
        2 * two_pow((n - 1) as nat)
    }
}

/// Bit `i` of `s`, counting from the most significant bit of `s[0]`.
pub open spec fn bit_at(s: Seq<u8>, i: int) -> u8 {
    (s[i / 8] >> ((7 - i % 8) as u8)) & 1u8
}

/// Number of bits in `s`.
pub open spec fn bit_len(s: Seq<u8>) -> int {
    (s.len() * 8) as int
}

/// Unsigned value of the `n` bits of `s` starting at bit `p`, most significant first.
pub open spec fn bits_value(s: Seq<u8>, p: int, n: nat) -> nat
    decreases n,
{
    if n == 0 {
        0
    } else {
        bits_value(s, p, (n - 1) as nat) * 2 + bit_at(s, p + n - 1) as nat
    }
}

pub proof fn lemma_two_pow_positive(n: nat)
    ensures
        two_pow(n) >= 1,
    decreases n,
{
    if n > 0 {
        lemma_two_pow_positive((n - 1) as nat);
    }
}

pub proof fn lemma_two_pow_monotone(a: nat, b: nat)
    requires
        a <= b,
    ensures
        two_pow(a) <= two_pow(b),
    decreases b,
{
    if a < b {
        lemma_two_pow_monotone(a, (b - 1) as nat);
        lemma_two_pow_positive((b - 1) as nat);
    }
}

pub proof fn lemma_two_pow_values()
    ensures
        two_pow(1) == 2,
        two_pow(2) == 4,
        two_pow(3) == 8,
        two_pow(4) == 16,
        two_pow(5) == 32,
        two_pow(6) == 64,
        two_pow(7) == 128,
        two_pow(8) == 0x100,
        two_pow(12) == 0x1000,
        two_pow(16) == 0x1_0000,
        two_pow(31) == 0x8000_0000,
        two_pow(32) == 0x1_0000_0000,
        two_pow(48) == 0x1_0000_0000_0000,
        two_pow(64) == 0x1_0000_0000_0000_0000,
{
    reveal_with_fuel(two_pow, 65);
}

pub proof fn lemma_bit_at_is_bit(s: Seq<u8>, i: int)
    ensures
        bit_at(s, i) <= 1,
{
    let b = s[i / 8];
    let k = (7 - i % 8) as u8;
    assert((b >> k) & 1u8 <= 1u8) by (bit_vector);
}

/// `bits_value` fits in `n` bits.
pub proof fn lemma_bits_value_bound(s: Seq<u8>, p: int, n: nat)
    ensures
        bits_value(s, p, n) < two_pow(n),
    decreases n,
{
    if n > 0 {
        lemma_bits_value_bound(s, p, (n - 1) as nat);
        lemma_bit_at_is_bit(s, p + n - 1);
    }
}

/// Exp-Golomb prefix: the number of zero bits before the first one bit from
/// bit `p` on (with `z` zeros counted so far), or `None` when the input ends
/// first or 32 zeros are seen.
pub open spec fn golomb_zeros(s: Seq<u8>, p: int, z: nat) -> Option<nat>
    decreases 32 - z,
{
    if p < 0 || p >= bit_len(s) {
        None
    } else if bit_at(s, p) == 1 {
        Some(z)
    } else if z + 1 >= 32 {
        None
    } else {
        golomb_zeros(s, p + 1, z + 1)
    }
}

/// `ue(v)` read at bit `p`: `(codeNum, position after the code)`.
pub open spec fn ue_spec(s: Seq<u8>, p: int) -> Option<(nat, int)> {
    match golomb_zeros(s, p, 0) {
        None => None,
        Some(z) => {
            let q = p + z + 1;
            if q + z > bit_len(s) {
                None
            } else {
                Some(((two_pow(z) - 1 + bits_value(s, q, z)) as nat, q + z))
            }
        },
    }
}

/// Signed value of an Exp-Golomb `codeNum` (`se(v)` mapping).
pub open spec fn se_of(code: nat) -> int {
    if code % 2 == 0 {
        -((code / 2) as int)
    } else {
        ((code + 1) / 2) as int
    }
}

/// AV1 `uvlc()` prefix: zeros before the first one bit, counting up to 64.
pub open spec fn uvlc_zeros(s: Seq<u8>, p: int, z: nat) -> Option<nat>
    decreases 65 - z,
{
    if p < 0 || p >= bit_len(s) {
        None
    } else if bit_at(s, p) == 1 {
        Some(z)
    } else if z + 1 > 64 {
        None
    } else {
        uvlc_zeros(s, p + 1, z + 1)
    }
}

/// AV1 `uvlc()` read at bit `p`: `(value, position after the code)`; with 32
/// or more leading zeros the value is `u32::MAX` and no suffix is read.
pub open spec fn uvlc_spec(s: Seq<u8>, p: int) -> Option<(nat, int)> {
    match uvlc_zeros(s, p, 0) {
        None => None,
        Some(z) => {
            let q = p + z + 1;
            if z >= 32 {
                Some((0xffff_ffffnat, q))
            } else if q + z > bit_len(s) {
                None
            } else {
                Some(((bits_value(s, q, z) + two_pow(z) - 1) as nat, q + z))
            }
        },
    }
}

/// One bit read at `p`: `(bit, p + 1)`, or `None` past the end.
pub open spec fn bit_spec(s: Seq<u8>, p: int) -> Option<(u8, int)> {
    if p < bit_len(s) {
        Some((bit_at(s, p), p + 1))
    } else {
        None
    }
}

/// `n` bits read at `p`: `(value, p + n)`, or `None` past the end.
pub open spec fn bits_spec(s: Seq<u8>, p: int, n: nat) -> Option<(nat, int)> {
    if p + n <= bit_len(s) {
        Some((bits_value(s, p, n), p + n))
    } else {
        None
    }
}

/// Position after `n` consecutive `se(v)` / `ue(v)` codes from `p`.
pub open spec fn skip_golomb_spec(s: Seq<u8>, p: int, n: nat) -> Option<int>
    decreases n,
{
    if n == 0 {
        Some(p)
    } else {
        match ue_spec(s, p) {
            None => None,
            Some((_, q)) => skip_golomb_spec(s, q, (n - 1) as nat),
        }
    }
}

/// MSB-first reader over a byte slice.
pub struct BitReader<'a> {
    input: &'a [u8],
    byte_pos: usize,
    bit_pos: u8,
}

impl<'a> BitReader<'a> {
    /// The bytes being read.
    pub closed spec fn data(&self) -> Seq<u8> {
        self.input@
    }

    /// Number of bits consumed so far.
    pub closed spec fn pos(&self) -> int {
        self.byte_pos * 8 + self.bit_pos
    }

    /// Internal consistency of the cursor.
    pub closed spec fn wf(&self) -> bool {
        &&& self.bit_pos < 8
        &&& self.byte_pos <= self.input@.len()
        &&& self.byte_pos == self.input@.len() ==> self.bit_pos == 0
    }

    /// A reader at the first bit of `input`.
    pub fn new(input: &'a [u8]) -> (r: Self)
        ensures
            r.wf(),
            r.data() == input@,
            r.pos() == 0,
    {
        BitReader { input, byte_pos: 0, bit_pos: 0 }
    }

    pub proof fn lemma_wf(&self)
        requires
            self.wf(),
        ensures
            0 <= self.pos() <= bit_len(self.data()),
    {
    }

    /// Reads one bit; fails when the input is used up.
    pub fn read_bit(&mut self) -> (r: Result<u8, Error>)
        requires
            old(self).wf(),
        ensures
            final(self).wf(),
            final(self).data() == old(self).data(),
            r is Ok <==> old(self).pos() < bit_len(old(self).data()),
            r matches Ok(b) ==> b == bit_at(old(self).data(), old(self).pos()) && final(self).pos()
                == old(self).pos() + 1,
            r is Err ==> final(self).pos() == old(self).pos(),
            r matches Err(e) ==> e.kind == ErrorKind::InvalidInput,
    {
        if self.byte_pos >= self.input.len() {
            return Err(Error::invalid_input("bitstream is truncated"));
        }
        let byte = self.input[self.byte_pos];
        let bit = (byte >> (7 - self.bit_pos)) & 1;
        proof {
            let p = self.pos();
            assert(p / 8 == self.byte_pos as int);
            assert(p % 8 == self.bit_pos as int);
        }
        self.bit_pos = self.bit_pos + 1;
        if self.bit_pos == 8 {
            self.bit_pos = 0;
            self.byte_pos = self.byte_pos + 1;
        }
        Ok(bit)
    }

    /// Reads `n` bits as an unsigned value, most significant first.
    pub fn read_bits(&mut self, n: u32) -> (r: Result<u64, Error>)
        requires
            old(self).wf(),
            n <= 64,
        ensures
            final(self).wf(),
            final(self).data() == old(self).data(),
            r is Ok <==> old(self).pos() + n <= bit_len(old(self).data()),
            r matches Ok(v) ==> v == bits_value(old(self).data(), old(self).pos(), n as nat)
                && final(self).pos() == old(self).pos() + n,
            r matches Err(e) ==> e.kind == ErrorKind::InvalidInput,
    {
        let ghost s = self.data();
        let ghost p0 = self.pos();
        let mut value: u64 = 0;
        let mut i: u32 = 0;
        while i < n
            invariant
                self.wf(),
                self.data() == s,
                s == old(self).data(),
                p0 == old(self).pos(),
                i <= n <= 64,
                self.pos() == p0 + i,
                p0 + i <= bit_len(s),
                value == bits_value(s, p0, i as nat),
            decreases n - i,
        {
            proof {
                lemma_bits_value_bound(s, p0, i as nat);
                lemma_two_pow_monotone(i as nat, 63);
                reveal_with_fuel(two_pow, 64);
                assert(two_pow(63) == 0x8000_0000_0000_0000) by {
                    lemma_two_pow_values();
                }
            }
            let b = match self.read_bit() {
                Ok(b) => b,
                Err(e) => {
                    proof {
                        assert(p0 + n > bit_len(s));
                    }
                    return Err(e);
                },
            };
            proof {
                lemma_bit_at_is_bit(s, p0 + i);
            }
            value = value * 2 + b as u64;
            i = i + 1;
        }
        Ok(value)
    }

    /// Skips `n` bits.
    pub fn skip_bits(&mut self, n: u32) -> (r: Result<(), Error>)
        requires
            old(self).wf(),
        ensures
            final(self).wf(),
            final(self).data() == old(self).data(),
            r is Ok <==> old(self).pos() + n <= bit_len(old(self).data()),
            r is Ok ==> final(self).pos() == old(self).pos() + n,
            r matches Err(e) ==> e.kind == ErrorKind::InvalidInput,
    {
        let ghost s = self.data();
        let ghost p0 = self.pos();
        let mut i: u32 = 0;
        while i < n
            invariant
                self.wf(),
                self.data() == s,
                s == old(self).data(),
                p0 == old(self).pos(),
                i <= n,
                self.pos() == p0 + i,
                p0 + i <= bit_len(s),
            decreases n - i,
        {
            match self.read_bit() {
                Ok(_) => {},
                Err(e) => {
                    return Err(e);
                },
            }
            i = i + 1;
        }
        Ok(())
    }

    /// Reads an unsigned Exp-Golomb code `ue(v)`: `2^z - 1` plus the `z` bits
    /// after the `z` leading zeros and the one bit; 32 leading zeros fail.
    pub fn read_ue(&mut self) -> (r: Result<u32, Error>)
        requires
            old(self).wf(),
        ensures
            final(self).wf(),
            final(self).data() == old(self).data(),
            r is Ok <==> ue_spec(old(self).data(), old(self).pos()) is Some,
            r matches Ok(v) ==> ue_spec(old(self).data(), old(self).pos()) == Some(
                (v as nat, final(self).pos()),
            ),
            r matches Err(e) ==> e.kind == ErrorKind::InvalidInput,
    {
        let ghost s = self.data();
        let ghost p0 = self.pos();
        let mut zeros: u32 = 0;
        let mut scale: u64 = 1;
        loop
            invariant_except_break
                self.pos() == p0 + zeros,
                golomb_zeros(s, p0, 0) == golomb_zeros(s, p0 + zeros, zeros as nat),
            invariant
                self.wf(),
                self.data() == s,
                s == old(self).data(),
                p0 == old(self).pos(),
                zeros < 32,
                scale == two_pow(zeros as nat),
            ensures
                self.pos() == p0 + zeros + 1,
                golomb_zeros(s, p0, 0) == Some(zeros as nat),
            decreases 32 - zeros,
        {
            proof {
                lemma_two_pow_monotone(zeros as nat, 31);
                lemma_two_pow_values();
                self.lemma_wf();
            }
            let b = self.read_bit()?;
            proof {
                lemma_bit_at_is_bit(s, p0 + zeros);
            }
            if b != 0 {
                break;
            }
            zeros = zeros + 1;
            if zeros >= 32 {
                return Err(Error::invalid_input("Exp-Golomb code exceeds 32 bits"));
            }
            scale = scale * 2;
        }
        proof {
            lemma_two_pow_monotone(zeros as nat, 31);
            lemma_two_pow_values();
        }
        let suffix = if zeros > 0 {
            self.read_bits(zeros)?
        } else {
            proof {
                assert(bits_value(s, self.pos(), 0) == 0);
            }
            0
        };
        proof {
            lemma_bits_value_bound(s, p0 + zeros + 1, zeros as nat);
        }
        let code = (scale - 1) + suffix;
        Ok(code as u32)
    }

    /// Reads a signed Exp-Golomb code `se(v)`.
    pub fn read_se(&mut self) -> (r: Result<i64, Error>)
        requires
            old(self).wf(),
        ensures
            final(self).wf(),
            final(self).data() == old(self).data(),
            r is Ok <==> ue_spec(old(self).data(), old(self).pos()) is Some,
            r matches Ok(v) ==> ue_spec(old(self).data(), old(self).pos()) matches Some((code, q))
                && v == se_of(code) && q == final(self).pos(),
            r matches Ok(v) ==> -0x8000_0000 <= v <= 0x8000_0000,
            r matches Err(e) ==> e.kind == ErrorKind::InvalidInput,
    {
        let code = self.read_ue()?;
        let magnitude = (code as u64 + 1) / 2;
        if code % 2 == 0 {
            Ok(-(magnitude as i64))
        } else {
            Ok(magnitude as i64)
        }
    }

    /// Reads an AV1 `uvlc()` code.
    pub fn read_uvlc(&mut self) -> (r: Result<u32, Error>)
        requires
            old(self).wf(),
        ensures
            final(self).wf(),
            final(self).data() == old(self).data(),
            r is Ok <==> uvlc_spec(old(self).data(), old(self).pos()) is Some,
            r matches Ok(v) ==> uvlc_spec(old(self).data(), old(self).pos()) == Some(
                (v as nat, final(self).pos()),
            ),
            r matches Err(e) ==> e.kind == ErrorKind::InvalidInput,
    {
        let ghost s = self.data();
        let ghost p0 = self.pos();
        let mut leading_zeros: u32 = 0;
        loop
            invariant_except_break
                self.pos() == p0 + leading_zeros,
                uvlc_zeros(s, p0, 0) == uvlc_zeros(s, p0 + leading_zeros, leading_zeros as nat),
            invariant
                self.wf(),
                self.data() == s,
                s == old(self).data(),
                p0 == old(self).pos(),
                leading_zeros <= 64,
            ensures
                self.pos() == p0 + leading_zeros + 1,
                uvlc_zeros(s, p0, 0) == Some(leading_zeros as nat),
            decreases 65 - leading_zeros,
        {
            proof {
                self.lemma_wf();
            }
            let done = self.read_bit()?;
            proof {
                lemma_bit_at_is_bit(s, p0 + leading_zeros);
            }
            if done == 1 {
                break;
            }
            leading_zeros = leading_zeros + 1;
            if leading_zeros > 64 {
                return Err(Error::invalid_input("uvlc leading zeros exceed 64"));
            }
        }
        if leading_zeros >= 32 {
            return Ok(0xffff_ffffu32);
        }
        let value = self.read_bits(leading_zeros)?;
        let mut scale: u64 = 1;
        let mut k: u32 = 0;
        while k < leading_zeros
            invariant
                k <= leading_zeros < 32,
                scale == two_pow(k as nat),
            decreases leading_zeros - k,
        {
            proof {
                lemma_two_pow_monotone(k as nat, 31);
                lemma_two_pow_values();
            }
            scale = scale * 2;
            k = k + 1;
        }
        proof {
            lemma_bits_value_bound(s, p0 + leading_zeros + 1, leading_zeros as nat);
            lemma_two_pow_monotone(leading_zeros as nat, 31);
            lemma_two_pow_values();
        }
        Ok((value + scale - 1) as u32)
    }
}

} // verus!

verus! {

impl<'a> BitReader<'a> {
    /// Skips `n` Exp-Golomb codes.
    pub fn skip_golomb(&mut self, n: u32) -> (r: Result<(), Error>)
        requires
            old(self).wf(),
        ensures
            final(self).wf(),
            final(self).data() == old(self).data(),
            r is Ok <==> skip_golomb_spec(old(self).data(), old(self).pos(), n as nat) is Some,
            r is Ok ==> skip_golomb_spec(old(self).data(), old(self).pos(), n as nat) == Some(
                final(self).pos(),
            ),
            r matches Err(e) ==> e.kind == ErrorKind::InvalidInput,
    {
        let ghost s = self.data();
        let ghost target = skip_golomb_spec(s, self.pos(), n as nat);
        let mut k: u32 = 0;
        while k < n
            invariant
                self.wf(),
                self.data() == s,
                s == old(self).data(),
                target == skip_golomb_spec(s, old(self).pos(), n as nat),
                k <= n,
                target == skip_golomb_spec(s, self.pos(), (n - k) as nat),
            decreases n - k,
        {
            let _ = self.read_ue()?;
            k += 1;
        }
        Ok(())
    }
}

} // verus!

verus! {

impl<'a> BitReader<'a> {
    /// Reads one bit as a flag value 0 / 1.
    pub fn read_flag(&mut self) -> (r: Result<u8, Error>)
        requires
            old(self).wf(),
        ensures
            final(self).wf(),
            final(self).data() == old(self).data(),
            r is Ok <==> bit_spec(old(self).data(), old(self).pos()) is Some,
            r matches Ok(b) ==> bit_spec(old(self).data(), old(self).pos()) == Some(
                (b, final(self).pos()),
            ) && b <= 1,
            r matches Err(e) ==> e.kind == ErrorKind::InvalidInput,
    {
        let ghost p = self.pos();
        let b = self.read_bit()?;
        proof {
            lemma_bit_at_is_bit(self.data(), p);
        }
        Ok(b)
    }

    /// Reads a field of `n <= 32` bits.
    pub fn read_field(&mut self, n: u32) -> (r: Result<u32, Error>)
        requires
            old(self).wf(),
            n <= 32,
        ensures
            final(self).wf(),
            final(self).data() == old(self).data(),
            r is Ok <==> bits_spec(old(self).data(), old(self).pos(), n as nat) is Some,
            r matches Ok(v) ==> bits_spec(old(self).data(), old(self).pos(), n as nat) == Some(
                (v as nat, final(self).pos()),
            ) && v < two_pow(n as nat),
            r matches Err(e) ==> e.kind == ErrorKind::InvalidInput,
    {
        let ghost p = self.pos();
        let v = self.read_bits(n)?;
        proof {
            lemma_bits_value_bound(self.data(), p, n as nat);
            lemma_two_pow_monotone(n as nat, 32);
            lemma_two_pow_values();
        }
        Ok(v as u32)
    }
}

} // verus!
