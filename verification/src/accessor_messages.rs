//! Human readable messages of [`SampleTableAccessorError`].
use vstd::prelude::*;
use vstd::string::StrSliceExecFns;

use crate::auxiliary::SampleTableAccessorError;
use crate::boxes::BoxType;

verus! {

/// The character of decimal digit `d`.
pub open spec fn digit_char(d: nat) -> char {
    (48 + d) as char
}

/// The decimal digits of `n`, most significant first.
pub open spec fn decimal(n: nat) -> Seq<char>
    decreases n,
{
    if n < 10 {
        seq![digit_char(n)]
    } else {
        decimal(n / 10).push(digit_char(n % 10))
    }
}

/// The lowercase hexadecimal character of `d` (below 16).
pub open spec fn hex_char(d: nat) -> char {
    if d < 10 {
        (48 + d) as char
    } else {
        (87 + d) as char
    }
}

/// How a box type reads in a message: its four characters, or the 16 user
/// type bytes in hexadecimal.
pub open spec fn box_type_chars(t: BoxType) -> Seq<char> {
    match t {
        BoxType::Normal(b) => b@.map_values(|x: u8| x as char),
        BoxType::Uuid(b) => Seq::new(
            32,
            |i: int|
                hex_char(
                    if i % 2 == 0 {
                        (b@[i / 2] / 16) as nat
                    } else {
                        (b@[i / 2] % 16) as nat
                    },
                ),
        ),
    }
}

/// The message of `e`.
pub open spec fn accessor_error_message(e: SampleTableAccessorError) -> Seq<char> {
    match e {
        SampleTableAccessorError::InconsistentSampleCount {
            stts_sample_count,
            other_box_type,
            other_sample_count,
        } => "Sample count in `stts` box is "@ + decimal(stts_sample_count as nat) + ", but `"@
            + box_type_chars(other_box_type) + "` has sample count "@ + decimal(other_sample_count as nat),
        SampleTableAccessorError::FirstChunkIndexIsNotOne { actual_chunk_index } =>
            "First chunk index in `stsc` box is expected to be 1, but got "@ + decimal(actual_chunk_index as nat),
        SampleTableAccessorError::LastChunkIndexIsTooLarge { max_chunk_index, last_chunk_index } =>
            "Last chunk index in `stsc` box is expected to be `<= "@ + decimal(max_chunk_index as nat)
            + "`, but got "@ + decimal(last_chunk_index as nat),
        SampleTableAccessorError::MissingSampleEntry {
            stsc_entry_index,
            sample_description_index,
            sample_entry_count,
        } => decimal(stsc_entry_index as nat) + "-th entry in `stsc` box refers to a missing sample entry "@
            + decimal(sample_description_index as nat) + " (sample entry count is "@ + decimal(
            sample_entry_count as nat,
        ) + ")"@,
        SampleTableAccessorError::ChunkIndicesNotMonotonicallyIncreasing =>
            "Chunk indices in `stsc` box are not monotonically increasing"@,
        SampleTableAccessorError::ChunksExistButNoSamples { chunk_count } => "Chunks exist ("@ + decimal(
            chunk_count as nat,
        ) + " chunks) but stsc has no entries"@,
        SampleTableAccessorError::SampleCountOverflow {
            box_type,
            accumulated_sample_count,
            entry_sample_count,
        } => "Total sample count in `"@ + box_type_chars(box_type) + "` box overflows u32 (accumulated "@
            + decimal(accumulated_sample_count as nat) + ", adding "@ + decimal(entry_sample_count as nat)
            + ")"@,
        SampleTableAccessorError::SampleDataOffsetOverflow {
            sample_index,
            accumulated_offset,
            sample_data_size,
        } => "Sample data offset overflows u64 at sample "@ + decimal(sample_index as nat) + " (accumulated "@
            + decimal(accumulated_offset as nat) + ", adding "@ + decimal(sample_data_size as nat) + ")"@,
    }
}

/// Appends the characters of `s`.
fn push_str(out: &mut Vec<char>, s: &str)
    ensures
        final(out)@ == old(out)@ + s@,
{
    let n: usize = s.unicode_len();
    let mut i: usize = 0;
    while i < n
        invariant
            n == s@.len(),
            i <= n,
            out@ == old(out)@ + s@.take(i as int),
        decreases n - i,
    {
        out.push(s.get_char(i));
        proof {
            assert(s@.take(i + 1) =~= s@.take(i as int).push(s@[i as int]));
        }
        i += 1;
    }
    proof {
        assert(s@.take(n as int) =~= s@);
    }
}

/// Appends the decimal digits of `n`.
fn push_decimal(out: &mut Vec<char>, n: u64)
    ensures
        final(out)@ == old(out)@ + decimal(n as nat),
    decreases n,
{
    if n >= 10 {
        push_decimal(out, n / 10);
    }
    let d: u8 = (n % 10) as u8;
    out.push((48 + d) as char);
    proof {
        assert((48 + d) as char == digit_char((n % 10) as nat));
        if n >= 10 {
            assert(out@ =~= old(out)@ + decimal(n as nat));
        } else {
            assert(out@ =~= old(out)@ + decimal(n as nat));
        }
    }
}

/// Appends how a box type reads in a message.
fn push_box_type(out: &mut Vec<char>, t: &BoxType)
    ensures
        final(out)@ == old(out)@ + box_type_chars(*t),
{
    match t {
        BoxType::Normal(b) => {
            let mut i: usize = 0;
            while i < 4
                invariant
                    i <= 4,
                    out@ == old(out)@ + b@.map_values(|x: u8| x as char).take(i as int),
                decreases 4 - i,
            {
                out.push(b[i] as char);
                proof {
                    assert(b@.map_values(|x: u8| x as char).take(i + 1) =~= b@.map_values(|x: u8| x as char).take(
                        i as int,
                    ).push(b@[i as int] as char));
                }
                i += 1;
            }
            proof {
                assert(b@.map_values(|x: u8| x as char).take(4) =~= b@.map_values(|x: u8| x as char));
            }
        },
        BoxType::Uuid(b) => {
            let ghost want = box_type_chars(*t);
            let mut i: usize = 0;
            while i < 16
                invariant
                    i <= 16,
                    want == box_type_chars(*t),
                    *t == BoxType::Uuid(*b),
                    out@ == old(out)@ + want.take(2 * i as int),
                decreases 16 - i,
            {
                let hi: u8 = b[i] / 16;
                let lo: u8 = b[i] % 16;
                let ch = if hi < 10 { (48 + hi) as char } else { (87 + hi) as char };
                let cl = if lo < 10 { (48 + lo) as char } else { (87 + lo) as char };
                out.push(ch);
                out.push(cl);
                proof {
                    assert(want[2 * i as int] == ch);
                    assert(want[2 * i + 1] == cl);
                    assert(want.take(2 * (i + 1)) =~= want.take(2 * i as int).push(ch).push(cl));
                }
                i += 1;
            }
            proof {
                assert(want.take(32) =~= want);
            }
        },
    }
}

/// Collects characters into a `String` (std's `FromIterator<char>` for
/// `String`); the string holds exactly those characters, in order.
#[verifier::external_body]
fn string_from_chars(cs: Vec<char>) -> (r: String)
    ensures
        r@ == cs@,
{
    cs.into_iter().collect()
}

impl SampleTableAccessorError {
    /// The error's message (see [`accessor_error_message`]).
    pub fn to_string(&self) -> (r: String)
        ensures
            r@ == accessor_error_message(*self),
    {
        let mut out: Vec<char> = Vec::new();
        match self {
            SampleTableAccessorError::InconsistentSampleCount {
                stts_sample_count,
                other_box_type,
                other_sample_count,
            } => {
                push_str(&mut out, "Sample count in `stts` box is ");
                push_decimal(&mut out, *stts_sample_count as u64);
                push_str(&mut out, ", but `");
                push_box_type(&mut out, other_box_type);
                push_str(&mut out, "` has sample count ");
                push_decimal(&mut out, *other_sample_count as u64);
            },
            SampleTableAccessorError::FirstChunkIndexIsNotOne { actual_chunk_index } => {
                push_str(&mut out, "First chunk index in `stsc` box is expected to be 1, but got ");
                push_decimal(&mut out, *actual_chunk_index as u64);
            },
            SampleTableAccessorError::LastChunkIndexIsTooLarge { max_chunk_index, last_chunk_index } => {
                push_str(&mut out, "Last chunk index in `stsc` box is expected to be `<= ");
                push_decimal(&mut out, *max_chunk_index as u64);
                push_str(&mut out, "`, but got ");
                push_decimal(&mut out, *last_chunk_index as u64);
            },
            SampleTableAccessorError::MissingSampleEntry {
                stsc_entry_index,
                sample_description_index,
                sample_entry_count,
            } => {
                push_decimal(&mut out, *stsc_entry_index as u64);
                push_str(&mut out, "-th entry in `stsc` box refers to a missing sample entry ");
                push_decimal(&mut out, *sample_description_index as u64);
                push_str(&mut out, " (sample entry count is ");
                push_decimal(&mut out, *sample_entry_count as u64);
                push_str(&mut out, ")");
            },
            SampleTableAccessorError::ChunkIndicesNotMonotonicallyIncreasing => {
                push_str(&mut out, "Chunk indices in `stsc` box are not monotonically increasing");
            },
            SampleTableAccessorError::ChunksExistButNoSamples { chunk_count } => {
                push_str(&mut out, "Chunks exist (");
                push_decimal(&mut out, *chunk_count as u64);
                push_str(&mut out, " chunks) but stsc has no entries");
            },
            SampleTableAccessorError::SampleCountOverflow {
                box_type,
                accumulated_sample_count,
                entry_sample_count,
            } => {
                push_str(&mut out, "Total sample count in `");
                push_box_type(&mut out, box_type);
                push_str(&mut out, "` box overflows u32 (accumulated ");
                push_decimal(&mut out, *accumulated_sample_count as u64);
                push_str(&mut out, ", adding ");
                push_decimal(&mut out, *entry_sample_count as u64);
                push_str(&mut out, ")");
            },
            SampleTableAccessorError::SampleDataOffsetOverflow {
                sample_index,
                accumulated_offset,
                sample_data_size,
            } => {
                push_str(&mut out, "Sample data offset overflows u64 at sample ");
                push_decimal(&mut out, *sample_index as u64);
                push_str(&mut out, " (accumulated ");
                push_decimal(&mut out, *accumulated_offset);
                push_str(&mut out, ", adding ");
                push_decimal(&mut out, *sample_data_size as u64);
                push_str(&mut out, ")");
            },
        }
        proof {
            assert(out@ =~= accessor_error_message(*self));
        }
        string_from_chars(out)
    }
}

} // verus!
