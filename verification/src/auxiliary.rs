//! Random access to the samples and chunks described by a sample table (`stbl`).
use vstd::prelude::*;

use crate::boxes::{BoxType, Either, SampleEntry};
use crate::boxes_moov_tree::{
    stts_expand, CttsEntry, StblBox, StscEntry, StszBox, SttsEntry,
};

verus! {

// ---------------------------------------------------------------------------
// Model of a sample table
// ---------------------------------------------------------------------------

/// Run-length encoded values expanded to one value per sample.
pub open spec fn run_expand<V>(runs: Seq<(u32, V)>) -> Seq<V>
    decreases runs.len(),
{
    if runs.len() == 0 {
        Seq::empty()
    } else {
        run_expand(runs.drop_last()) + Seq::new(runs.last().0 as nat, |i: int| runs.last().1)
    }
}

/// Total count of run-length encoded runs.
pub open spec fn run_total<V>(runs: Seq<(u32, V)>) -> nat
    decreases runs.len(),
{
    if runs.len() == 0 {
        0
    } else {
        run_total(runs.drop_last()) + runs.last().0 as nat
    }
}

/// `(sample_count, sample_delta)` runs of `stts`.
pub open spec fn stts_runs(e: Seq<SttsEntry>) -> Seq<(u32, u32)> {
    Seq::new(e.len(), |i: int| (e[i].sample_count, e[i].sample_delta))
}

/// `(sample_count, sample_offset)` runs of `ctts`.
pub open spec fn ctts_runs(e: Seq<CttsEntry>) -> Seq<(u32, i64)> {
    Seq::new(e.len(), |i: int| (e[i].sample_count, e[i].sample_offset))
}

/// Sum of a sequence of durations.
pub open spec fn seq_sum(s: Seq<u32>) -> nat
    decreases s.len(),
{
    if s.len() == 0 {
        0
    } else {
        seq_sum(s.drop_last()) + s.last() as nat
    }
}

/// Number of samples that `stts` describes.
pub open spec fn sample_total(b: StblBox) -> nat {
    run_total(stts_runs(b.stts_box.entries@))
}

/// Duration of every sample, in order.
pub open spec fn sample_durations(b: StblBox) -> Seq<u32> {
    run_expand(stts_runs(b.stts_box.entries@))
}

/// Number of samples that `stsz` describes.
pub open spec fn stsz_count(b: StblBox) -> nat {
    match b.stsz_box {
        StszBox::Fixed { sample_count, .. } => sample_count as nat,
        StszBox::Variable { entry_sizes } => entry_sizes@.len(),
    }
}

/// Size of sample `i` (1-based).
pub open spec fn sample_size_of(b: StblBox, i: int) -> nat {
    match b.stsz_box {
        StszBox::Fixed { sample_size, .. } => sample_size as nat,
        StszBox::Variable { entry_sizes } => entry_sizes@[i - 1] as nat,
    }
}

/// Sum of the sizes of samples `a .. c` (1-based, `c` excluded).
pub open spec fn size_sum(b: StblBox, a: int, c: int) -> nat
    decreases c - a,
{
    if c <= a {
        0
    } else {
        size_sum(b, a, c - 1) + sample_size_of(b, c - 1)
    }
}

/// File offsets of the chunks.
pub open spec fn chunk_offsets_of(b: StblBox) -> Seq<u64> {
    match b.stco_or_co64_box {
        Either::A(s) => Seq::new(s.chunk_offsets@.len(), |i: int| s.chunk_offsets@[i] as u64),
        Either::B(c) => c.chunk_offsets@,
    }
}

/// Number of chunks.
pub open spec fn chunk_total(b: StblBox) -> nat {
    chunk_offsets_of(b).len()
}

/// Index of the last key in `keys[0..n]` that is at most `t`, or -1.
pub open spec fn rightmost_le(keys: Seq<u32>, n: int, t: int) -> int
    decreases n,
{
    if n <= 0 {
        -1
    } else if keys[n - 1] <= t {
        n - 1
    } else {
        rightmost_le(keys, n - 1, t)
    }
}

/// `first_chunk` of every `stsc` entry.
pub open spec fn stsc_keys(b: StblBox) -> Seq<u32> {
    Seq::new(b.stsc_box.entries@.len(), |i: int| b.stsc_box.entries@[i].first_chunk)
}

/// The `stsc` entry that describes chunk `j` (1-based): the last entry whose
/// `first_chunk` is at most `j`.
pub open spec fn stsc_index_of_chunk(b: StblBox, j: int) -> int {
    rightmost_le(stsc_keys(b), b.stsc_box.entries@.len() as int, j)
}

/// Number of samples in chunk `j`.
pub open spec fn samples_in_chunk(b: StblBox, j: int) -> nat {
    let k = stsc_index_of_chunk(b, j);
    if k < 0 {
        0
    } else {
        b.stsc_box.entries@[k].sample_per_chunk as nat
    }
}

/// Index (1-based) of the first sample of chunk `j`.
pub open spec fn chunk_first_sample(b: StblBox, j: int) -> nat
    decreases j,
{
    if j <= 1 {
        1
    } else {
        chunk_first_sample(b, j - 1) + samples_in_chunk(b, j - 1)
    }
}

/// The last chunk among `1..=j` whose first sample is at most `i`, or 0.
pub open spec fn chunk_of_sample_upto(b: StblBox, i: int, j: int) -> int
    decreases j,
{
    if j < 1 {
        0
    } else if chunk_first_sample(b, j) <= i {
        j
    } else {
        chunk_of_sample_upto(b, i, j - 1)
    }
}

/// The chunk holding sample `i`: the last chunk whose first sample is at most `i`.
pub open spec fn chunk_of_sample(b: StblBox, i: int) -> int {
    chunk_of_sample_upto(b, i, chunk_total(b) as int)
}

/// File offset of sample `i`: its chunk's offset plus the sizes of the
/// samples before it in the same chunk.
pub open spec fn sample_data_offset_of(b: StblBox, i: int) -> int {
    let c = chunk_of_sample(b, i);
    chunk_offsets_of(b)[c - 1] + size_sum(b, chunk_first_sample(b, c) as int, i)
}

/// End offset of the data of chunk `j`.
pub open spec fn chunk_end(b: StblBox, j: int) -> int {
    chunk_offsets_of(b)[j - 1] + size_sum(
        b,
        chunk_first_sample(b, j) as int,
        (chunk_first_sample(b, j) + samples_in_chunk(b, j)) as int,
    )
}

/// Well-formedness that the box types hold by construction: 1-based indices
/// are never 0, a fixed sample size is never 0, and the tables fit their
/// 32 bit counts.
pub open spec fn stbl_wf(b: StblBox) -> bool {
    &&& forall|k: int|
        0 <= k < b.stsc_box.entries@.len() ==> (#[trigger] b.stsc_box.entries@[k]).first_chunk
            >= 1 && b.stsc_box.entries@[k].sample_description_index >= 1
    &&& (match b.stsz_box {
        StszBox::Fixed { sample_size, .. } => sample_size >= 1,
        StszBox::Variable { entry_sizes } => entry_sizes@.len() <= u32::MAX,
    })
    &&& chunk_total(b) <= u32::MAX
    &&& (match b.stss_box {
        Some(s) => forall|k: int| 0 <= k < s.sample_numbers@.len() ==> #[trigger] s.sample_numbers@[k] >= 1,
        None => true,
    })
}

/// At least one `stsc` entry when there are chunks.
pub open spec fn stsc_nonempty_ok(b: StblBox) -> bool {
    chunk_total(b) > 0 ==> b.stsc_box.entries@.len() > 0
}

/// The first `stsc` entry starts at chunk 1.
pub open spec fn stsc_first_ok(b: StblBox) -> bool {
    b.stsc_box.entries@.len() > 0 ==> b.stsc_box.entries@[0].first_chunk == 1
}

/// Every `stsc` entry refers to an existing sample entry.
pub open spec fn stsc_entries_ok(b: StblBox) -> bool {
    forall|k: int|
        0 <= k < b.stsc_box.entries@.len() ==> #[trigger] b.stsc_box.entries@[k].sample_description_index
            <= b.stsd_box.entries@.len()
}

/// The `first_chunk` values of `stsc` strictly increase.
pub open spec fn stsc_increasing_ok(b: StblBox) -> bool {
    let e = b.stsc_box.entries@;
    forall|k: int| 0 <= k < e.len() - 1 ==> #[trigger] e[k].first_chunk < e[k + 1].first_chunk
}

/// The last `stsc` entry starts at an existing chunk.
pub open spec fn stsc_last_ok(b: StblBox) -> bool {
    chunk_total(b) > 0 ==> b.stsc_box.entries@.last().first_chunk <= chunk_total(b)
}

/// The `stsc` run of chunks is well ordered: starts at chunk 1, strictly
/// increasing, refers to existing sample entries and chunks.
pub open spec fn stsc_consistent(b: StblBox) -> bool {
    &&& stsc_nonempty_ok(b)
    &&& stsc_first_ok(b)
    &&& stsc_entries_ok(b)
    &&& stsc_increasing_ok(b)
    &&& stsc_last_ok(b)
}

/// The sample count of `stts` fits 32 bits.
pub open spec fn stts_ok(b: StblBox) -> bool {
    sample_total(b) <= u32::MAX
}

/// `stsz` describes as many samples as `stts`.
pub open spec fn stsz_ok(b: StblBox) -> bool {
    stsz_count(b) == sample_total(b)
}

/// Number of samples that `ctts` describes (0 without `ctts`).
pub open spec fn ctts_total(b: StblBox) -> nat {
    match b.ctts_box {
        Some(c) => run_total(ctts_runs(c.entries@)),
        None => 0,
    }
}

/// The sample count of `ctts`, if any, fits 32 bits.
pub open spec fn ctts_total_ok(b: StblBox) -> bool {
    b.ctts_box is Some ==> ctts_total(b) <= u32::MAX
}

/// `ctts`, if any, describes as many samples as `stts`.
pub open spec fn ctts_ok(b: StblBox) -> bool {
    b.ctts_box is Some ==> ctts_total(b) == sample_total(b)
}

/// The chunks of `stsc` hold exactly the samples of `stts`.
pub open spec fn chunk_samples_ok(b: StblBox) -> bool {
    chunk_first_sample(b, (chunk_total(b) + 1) as int) == sample_total(b) + 1
}

/// The data of every chunk ends within 64 bits.
pub open spec fn offsets_ok(b: StblBox) -> bool {
    forall|j: int| 1 <= j <= chunk_total(b) ==> #[trigger] chunk_end(b, j) <= u64::MAX
}

/// All the tables of the sample table agree with each other and the data
/// offsets of every chunk fit 64 bits.
pub open spec fn sample_table_consistent(b: StblBox) -> bool {
    &&& stts_ok(b)
    &&& stsz_ok(b)
    &&& ctts_ok(b)
    &&& stsc_consistent(b)
    &&& chunk_samples_ok(b)
    &&& offsets_ok(b)
}

// ---------------------------------------------------------------------------
// Lemmas on run-length expansion
// ---------------------------------------------------------------------------

pub proof fn lemma_run_expand_len<V>(runs: Seq<(u32, V)>)
    ensures
        run_expand(runs).len() == run_total(runs),
    decreases runs.len(),
{
    if runs.len() > 0 {
        lemma_run_expand_len(runs.drop_last());
    }
}

pub proof fn lemma_run_total_take<V>(runs: Seq<(u32, V)>, k: int)
    requires
        0 <= k < runs.len(),
    ensures
        run_total(runs.take(k + 1)) == run_total(runs.take(k)) + runs[k].0,
        run_expand(runs.take(k + 1)) == run_expand(runs.take(k)) + Seq::new(
            runs[k].0 as nat,
            |i: int| runs[k].1,
        ),
{
    assert(runs.take(k + 1).drop_last() =~= runs.take(k));
}

/// The expansion of a prefix of the runs is a prefix of the whole expansion.
pub proof fn lemma_run_expand_prefix<V>(runs: Seq<(u32, V)>, m: int)
    requires
        0 <= m <= runs.len(),
    ensures
        run_total(runs.take(m)) <= run_total(runs),
        run_expand(runs).take(run_total(runs.take(m)) as int) == run_expand(runs.take(m)),
    decreases runs.len() - m,
{
    lemma_run_expand_len(runs);
    lemma_run_expand_len(runs.take(m));
    if m == runs.len() {
        assert(runs.take(m) =~= runs);
        assert(run_expand(runs).take(run_total(runs) as int) =~= run_expand(runs));
    } else {
        lemma_run_expand_prefix(runs, m + 1);
        lemma_run_total_take(runs, m);
        lemma_run_expand_len(runs.take(m + 1));
        let a = run_expand(runs.take(m));
        let whole = run_expand(runs);
        let t = run_total(runs.take(m)) as int;
        assert(whole.take(run_total(runs.take(m + 1)) as int).take(t) =~= whole.take(t));
        assert((a + Seq::new(runs[m].0 as nat, |i: int| runs[m].1)).take(t) =~= a);
    }
}

/// Running total before run `k` is monotone.
pub proof fn lemma_run_total_take_monotone<V>(runs: Seq<(u32, V)>, a: int, c: int)
    requires
        0 <= a <= c <= runs.len(),
    ensures
        run_total(runs.take(a)) <= run_total(runs.take(c)),
    decreases c - a,
{
    if a < c {
        lemma_run_total_take_monotone(runs, a, c - 1);
        lemma_run_total_take(runs, c - 1);
    }
}

/// The value of sample `idx` (0-based) lying in run `k`.
pub proof fn lemma_run_expand_at<V>(runs: Seq<(u32, V)>, k: int, idx: int)
    requires
        0 <= k < runs.len(),
        run_total(runs.take(k)) <= idx < run_total(runs.take(k)) + runs[k].0,
    ensures
        idx < run_total(runs),
        run_expand(runs)[idx] == runs[k].1,
        run_expand(runs).take(idx) == run_expand(runs.take(k)) + Seq::new(
            (idx - run_total(runs.take(k))) as nat,
            |i: int| runs[k].1,
        ),
{
    lemma_run_expand_prefix(runs, k + 1);
    lemma_run_total_take(runs, k);
    lemma_run_expand_len(runs.take(k));
    lemma_run_expand_len(runs);
    let whole = run_expand(runs);
    let pre = run_expand(runs.take(k + 1));
    assert(whole.take(run_total(runs.take(k + 1)) as int) == pre);
    assert(whole[idx] == pre[idx]);
    assert(whole.take(idx) =~= pre.take(idx));
    assert(pre.take(idx) =~= run_expand(runs.take(k)) + Seq::new(
        (idx - run_total(runs.take(k))) as nat,
        |i: int| runs[k].1,
    ));
}

pub proof fn lemma_seq_sum_append(a: Seq<u32>, b: Seq<u32>)
    ensures
        seq_sum(a + b) == seq_sum(a) + seq_sum(b),
    decreases b.len(),
{
    if b.len() == 0 {
        assert(a + b =~= a);
    } else {
        lemma_seq_sum_append(a, b.drop_last());
        assert((a + b).drop_last() =~= a + b.drop_last());
    }
}

pub proof fn lemma_seq_sum_const(n: nat, d: u32)
    ensures
        seq_sum(Seq::new(n, |i: int| d)) == n * d,
    decreases n,
{
    if n > 0 {
        lemma_seq_sum_const((n - 1) as nat, d);
        let full = Seq::new(n, |i: int| d);
        assert(full.drop_last() =~= Seq::new((n - 1) as nat, |i: int| d));
        assert(full.last() == d);
        assert(seq_sum(full) == seq_sum(full.drop_last()) + d as nat);
        assert((n - 1) * d + d == n * d) by (nonlinear_arith);
    } else {
        assert(Seq::new(n, |i: int| d).len() == 0);
        assert(n * d == 0) by (nonlinear_arith) requires n == 0;
    }
}

pub proof fn lemma_seq_sum_bound(s: Seq<u32>)
    ensures
        seq_sum(s) <= s.len() * 0xffff_ffff,
    decreases s.len(),
{
    if s.len() > 0 {
        lemma_seq_sum_bound(s.drop_last());
        assert((s.len() - 1) * 0xffff_ffff + 0xffff_ffff == s.len() * 0xffff_ffff) by (nonlinear_arith);
    }
}

/// `stts_expand` is the expansion of the `stts` runs.
pub proof fn lemma_stts_expand_runs(e: Seq<SttsEntry>)
    ensures
        stts_expand(e) == run_expand(stts_runs(e)),
    decreases e.len(),
{
    if e.len() > 0 {
        lemma_stts_expand_runs(e.drop_last());
        assert(stts_runs(e).drop_last() =~= stts_runs(e.drop_last()));
    }
}

// ---------------------------------------------------------------------------
// Lemmas on rightmost_le
// ---------------------------------------------------------------------------

pub open spec fn sorted_nondecreasing(keys: Seq<u32>) -> bool {
    forall|a: int, c: int| 0 <= a <= c < keys.len() ==> keys[a] <= keys[c]
}

pub proof fn lemma_rightmost_le(keys: Seq<u32>, n: int, t: int)
    requires
        0 <= n <= keys.len(),
    ensures
        -1 <= rightmost_le(keys, n, t) < n,
        rightmost_le(keys, n, t) >= 0 ==> keys[rightmost_le(keys, n, t)] <= t,
        forall|k: int| rightmost_le(keys, n, t) < k < n ==> keys[k] > t,
    decreases n,
{
    if n > 0 && keys[n - 1] > t {
        lemma_rightmost_le(keys, n - 1, t);
    }
}

pub proof fn lemma_rightmost_le_unique(keys: Seq<u32>, n: int, t: int, r: int)
    requires
        0 <= n <= keys.len(),
        -1 <= r < n,
        r >= 0 ==> keys[r] <= t,
        forall|k: int| r < k < n ==> keys[k] > t,
    ensures
        rightmost_le(keys, n, t) == r,
    decreases n,
{
    if n > 0 && r < n - 1 {
        lemma_rightmost_le_unique(keys, n - 1, t, r);
    }
}

// ---------------------------------------------------------------------------
// Executable helpers
// ---------------------------------------------------------------------------

/// Binary search for the last key that is at most `target`.
fn search_rightmost_le(keys: &Vec<u32>, target: u32) -> (r: usize)
    requires
        keys@.len() > 0,
        keys@[0] <= target,
        sorted_nondecreasing(keys@),
    ensures
        r < keys@.len(),
        r == rightmost_le(keys@, keys@.len() as int, target as int),
{
    let mut low: usize = 0;
    let mut high: usize = keys.len();
    while high - low > 1
        invariant
            low < high <= keys@.len(),
            keys@[low as int] <= target,
            forall|k: int| high <= k < keys@.len() ==> keys@[k] > target,
            sorted_nondecreasing(keys@),
        decreases high - low,
    {
        let mid = low + (high - low) / 2;
        if keys[mid] <= target {
            low = mid;
        } else {
            high = mid;
        }
    }
    proof {
        lemma_rightmost_le_unique(keys@, keys@.len() as int, target as int, low as int);
    }
    low
}

} // verus!

verus! {

// ---------------------------------------------------------------------------
// More lemmas on the chunk model
// ---------------------------------------------------------------------------

/// Strictly increasing neighbours make a sorted sequence.
pub proof fn lemma_adjacent_increasing_sorted(keys: Seq<u32>)
    requires
        forall|k: int| 0 <= k < keys.len() - 1 ==> #[trigger] keys[k] < keys[k + 1],
    ensures
        sorted_nondecreasing(keys),
        forall|a: int, c: int| 0 <= a < c < keys.len() ==> keys[a] < keys[c],
{
    assert forall|a: int, c: int| 0 <= a < c < keys.len() implies keys[a] < keys[c] by {
        lemma_increasing_between(keys, a, c);
    }
}

proof fn lemma_increasing_between(keys: Seq<u32>, a: int, c: int)
    requires
        forall|k: int| 0 <= k < keys.len() - 1 ==> #[trigger] keys[k] < keys[k + 1],
        0 <= a < c < keys.len(),
    ensures
        keys[a] < keys[c],
    decreases c - a,
{
    if c - a > 1 {
        lemma_increasing_between(keys, a, c - 1);
        assert(keys[c - 1] < keys[c]);
    } else {
        assert(keys[a] < keys[a + 1]);
    }
}

pub proof fn lemma_chunk_first_sample_monotone(b: StblBox, a: int, c: int)
    requires
        a <= c,
    ensures
        chunk_first_sample(b, a) <= chunk_first_sample(b, c),
    decreases c - a,
{
    if a < c {
        lemma_chunk_first_sample_monotone(b, a, c - 1);
        if c > 1 {
            assert(chunk_first_sample(b, c) == chunk_first_sample(b, c - 1) + samples_in_chunk(b, c - 1));
        }
    }
}

pub proof fn lemma_chunk_first_sample_step(b: StblBox, j: int)
    requires
        j >= 1,
    ensures
        chunk_first_sample(b, j + 1) == chunk_first_sample(b, j) + samples_in_chunk(b, j),
{
}

proof fn lemma_chunk_of_sample_upto(b: StblBox, i: int, n: int, j: int)
    requires
        1 <= j <= n,
        chunk_first_sample(b, j) <= i,
        forall|m: int| j < m <= n ==> chunk_first_sample(b, m) > i,
    ensures
        chunk_of_sample_upto(b, i, n) == j,
    decreases n,
{
    if n > j {
        lemma_chunk_of_sample_upto(b, i, n - 1, j);
    }
}

/// A sample inside the sample range of chunk `j` belongs to chunk `j`.
pub proof fn lemma_chunk_of_sample(b: StblBox, i: int, j: int)
    requires
        1 <= j <= chunk_total(b),
        chunk_first_sample(b, j) <= i < chunk_first_sample(b, j) + samples_in_chunk(b, j),
    ensures
        chunk_of_sample(b, i) == j,
{
    assert forall|m: int| j < m <= chunk_total(b) implies chunk_first_sample(b, m) > i by {
        lemma_chunk_first_sample_monotone(b, j + 1, m);
    }
    lemma_chunk_of_sample_upto(b, i, chunk_total(b) as int, j);
}

pub proof fn lemma_size_sum_fixed(b: StblBox, a: int, c: int, s: u32)
    requires
        a <= c,
        b.stsz_box matches StszBox::Fixed { sample_size, .. } && sample_size == s,
    ensures
        size_sum(b, a, c) == (c - a) * s,
    decreases c - a,
{
    if a < c {
        lemma_size_sum_fixed(b, a, c - 1, s);
        assert((c - 1 - a) * s + s == (c - a) * s) by (nonlinear_arith);
    } else {
        assert((c - a) * s == 0) by (nonlinear_arith) requires c == a;
    }
}

pub proof fn lemma_size_sum_monotone(b: StblBox, a: int, c: int, d: int)
    requires
        a <= c <= d,
    ensures
        size_sum(b, a, c) <= size_sum(b, a, d),
    decreases d - c,
{
    if c < d {
        lemma_size_sum_monotone(b, a, c, d - 1);
    }
}

/// The sample timestamps grow by each sample's duration.
pub proof fn lemma_seq_sum_take_step(s: Seq<u32>, q: int)
    requires
        0 <= q < s.len(),
    ensures
        seq_sum(s.take(q + 1)) == seq_sum(s.take(q)) + s[q],
{
    assert(s.take(q + 1).drop_last() =~= s.take(q));
}

pub proof fn lemma_seq_sum_take_monotone(s: Seq<u32>, a: int, c: int)
    requires
        0 <= a <= c <= s.len(),
    ensures
        seq_sum(s.take(a)) <= seq_sum(s.take(c)),
    decreases c - a,
{
    if a < c {
        lemma_seq_sum_take_monotone(s, a, c - 1);
        lemma_seq_sum_take_step(s, c - 1);
    }
}

} // verus!

verus! {

/// `stts` box type.
pub open spec fn stts_type() -> BoxType {
    BoxType::Normal([0x73u8, 0x74, 0x74, 0x73])
}

/// `ctts` box type.
pub open spec fn ctts_type() -> BoxType {
    BoxType::Normal([0x63u8, 0x74, 0x74, 0x73])
}

/// `stsz` box type.
pub open spec fn stsz_type() -> BoxType {
    BoxType::Normal([0x73u8, 0x74, 0x73, 0x7a])
}

/// `stsc` box type.
pub open spec fn stsc_type() -> BoxType {
    BoxType::Normal([0x73u8, 0x74, 0x73, 0x63])
}

/// Error of [`SampleTableAccessor::new`].
#[derive(Debug, Clone)]
pub enum SampleTableAccessorError {
    /// `stts` and another box disagree on the number of samples.
    InconsistentSampleCount {
        /// Sample count according to `stts`.
        stts_sample_count: u32,
        /// The box that disagrees.
        other_box_type: BoxType,
        /// Sample count according to that box.
        other_sample_count: u32,
    },
    /// The first `stsc` entry does not start at chunk 1.
    FirstChunkIndexIsNotOne {
        /// Its first chunk.
        actual_chunk_index: u32,
    },
    /// The last `stsc` entry starts past the last chunk.
    LastChunkIndexIsTooLarge {
        /// Number of chunks.
        max_chunk_index: u32,
        /// First chunk of the last `stsc` entry.
        last_chunk_index: u32,
    },
    /// An `stsc` entry refers to a missing sample entry.
    MissingSampleEntry {
        /// Index of the `stsc` entry.
        stsc_entry_index: usize,
        /// The sample description index it refers to.
        sample_description_index: u32,
        /// Number of sample entries.
        sample_entry_count: usize,
    },
    /// The `first_chunk` values of `stsc` are not strictly increasing.
    ChunkIndicesNotMonotonicallyIncreasing,
    /// There are chunks but no `stsc` entries.
    ChunksExistButNoSamples {
        /// Number of chunks.
        chunk_count: u32,
    },
    /// The sample counts of `stts` or `ctts` add up past `u32::MAX`.
    SampleCountOverflow {
        /// `stts` or `ctts`.
        box_type: BoxType,
        /// Count accumulated before the entry that overflows.
        accumulated_sample_count: u32,
        /// Count of that entry.
        entry_sample_count: u32,
    },
    /// A sample data offset passes `u64::MAX`.
    SampleDataOffsetOverflow {
        /// The sample whose end offset overflows.
        sample_index: u32,
        /// Its start offset.
        accumulated_offset: u64,
        /// Its size.
        sample_data_size: u32,
    },
}

/// The count accumulated before run `k` plus the count of run `k` passes
/// `u32::MAX`, while the count before it does not: `k` is the first run at
/// which a 32 bit running total overflows.
pub open spec fn count_overflow_at<V>(runs: Seq<(u32, V)>, accumulated: u32, entry: u32) -> bool {
    exists|k: int|
        0 <= k < runs.len() && accumulated == run_total(#[trigger] runs.take(k)) && entry
            == runs[k].0 && accumulated + entry > u32::MAX
}

/// Sample count that `stsc` is reported with when it disagrees with `stts`:
/// the chunks' total, held below `u32::MAX`.
pub open spec fn stsc_reported_count(b: StblBox) -> nat {
    let n = chunk_first_sample(b, (chunk_total(b) + 1) as int) - 1;
    if n >= u32::MAX {
        (u32::MAX - 1) as nat
    } else {
        n as nat
    }
}

/// Sample `i` is the first whose data ends past `u64::MAX`: the chunks
/// before its chunk end within 64 bits and it starts within 64 bits.
pub open spec fn offset_overflow_at(b: StblBox, i: int, start: u64, size: u32) -> bool {
    let c = chunk_of_sample(b, i);
    &&& 1 <= i <= sample_total(b)
    &&& 1 <= c <= chunk_total(b)
    &&& chunk_first_sample(b, c) <= i < chunk_first_sample(b, c) + samples_in_chunk(b, c)
    &&& forall|j: int| 1 <= j < c ==> #[trigger] chunk_end(b, j) <= u64::MAX
    &&& start == sample_data_offset_of(b, i)
    &&& size == sample_size_of(b, i)
    &&& start + size > u64::MAX
}

/// The `stsc` error that the checks of `stsc`, made in order, report first.
pub open spec fn stsc_error(b: StblBox, e: SampleTableAccessorError) -> bool {
    let s = b.stsc_box.entries@;
    match e {
        SampleTableAccessorError::ChunksExistButNoSamples { chunk_count } => !stsc_nonempty_ok(b)
            && chunk_count == chunk_total(b),
        SampleTableAccessorError::FirstChunkIndexIsNotOne { actual_chunk_index } =>
            stsc_nonempty_ok(b) && !stsc_first_ok(b) && actual_chunk_index == s[0].first_chunk,
        SampleTableAccessorError::MissingSampleEntry {
            stsc_entry_index,
            sample_description_index,
            sample_entry_count,
        } => {
            &&& stsc_nonempty_ok(b)
            &&& stsc_first_ok(b)
            &&& stsc_entry_index < s.len()
            &&& sample_entry_count == b.stsd_box.entries@.len()
            &&& sample_description_index == s[stsc_entry_index as int].sample_description_index
            &&& sample_description_index > sample_entry_count
            &&& forall|m: int|
                0 <= m < stsc_entry_index ==> #[trigger] s[m].sample_description_index
                    <= sample_entry_count
        },
        SampleTableAccessorError::ChunkIndicesNotMonotonicallyIncreasing => stsc_nonempty_ok(b)
            && stsc_first_ok(b) && stsc_entries_ok(b) && !stsc_increasing_ok(b),
        SampleTableAccessorError::LastChunkIndexIsTooLarge { max_chunk_index, last_chunk_index } => {
            &&& stsc_nonempty_ok(b)
            &&& stsc_first_ok(b)
            &&& stsc_entries_ok(b)
            &&& stsc_increasing_ok(b)
            &&& !stsc_last_ok(b)
            &&& max_chunk_index == chunk_total(b)
            &&& last_chunk_index == s.last().first_chunk
        },
        _ => false,
    }
}

/// The error that [`SampleTableAccessor::new`] reports: the first check,
/// in the order `stts`, `stsz`, `ctts`, `stsc`, chunk sample counts, data
/// offsets, that fails, with the values it reports.
pub open spec fn accessor_error(b: StblBox, e: SampleTableAccessorError) -> bool {
    match e {
        SampleTableAccessorError::SampleCountOverflow {
            box_type,
            accumulated_sample_count,
            entry_sample_count,
        } => (box_type == stts_type() && !stts_ok(b) && count_overflow_at(
            stts_runs(b.stts_box.entries@),
            accumulated_sample_count,
            entry_sample_count,
        )) || (box_type == ctts_type() && stts_ok(b) && stsz_ok(b) && !ctts_total_ok(b) && (match b.ctts_box {
            Some(c) => count_overflow_at(
                ctts_runs(c.entries@),
                accumulated_sample_count,
                entry_sample_count,
            ),
            None => false,
        })),
        SampleTableAccessorError::InconsistentSampleCount {
            stts_sample_count,
            other_box_type,
            other_sample_count,
        } => stts_ok(b) && stts_sample_count == sample_total(b) && ((other_box_type == stsz_type()
            && !stsz_ok(b) && other_sample_count == stsz_count(b)) || (other_box_type
            == ctts_type() && stsz_ok(b) && ctts_total_ok(b) && !ctts_ok(b) && other_sample_count
            == ctts_total(b)) || (other_box_type == stsc_type() && stsz_ok(b) && ctts_ok(b)
            && stsc_consistent(b) && !chunk_samples_ok(b) && other_sample_count
            == stsc_reported_count(b))),
        SampleTableAccessorError::SampleDataOffsetOverflow {
            sample_index,
            accumulated_offset,
            sample_data_size,
        } => stts_ok(b) && stsz_ok(b) && ctts_ok(b) && stsc_consistent(b) && chunk_samples_ok(b)
            && offset_overflow_at(b, sample_index as int, accumulated_offset, sample_data_size),
        _ => stts_ok(b) && stsz_ok(b) && ctts_ok(b) && stsc_error(b, e),
    }
}

/// Builds the `(samples before run k, duration before run k)` table of `stts`.
fn build_stts_table(entries: &Vec<SttsEntry>) -> (r: Result<
    (u32, Vec<u32>, Vec<u64>),
    SampleTableAccessorError,
>)
    ensures
        r is Ok <==> run_total(stts_runs(entries@)) <= u32::MAX,
        r matches Ok((n, starts, acc)) ==> {
            &&& n == run_total(stts_runs(entries@))
            &&& starts@.len() == entries@.len()
            &&& acc@.len() == entries@.len()
            &&& forall|k: int|
                0 <= k < entries@.len() ==> #[trigger] starts@[k] == run_total(
                    stts_runs(entries@).take(k),
                ) && acc@[k] == seq_sum(run_expand(stts_runs(entries@).take(k)))
        },
        r matches Err(e) ==> e matches SampleTableAccessorError::SampleCountOverflow {
            box_type,
            accumulated_sample_count,
            entry_sample_count,
        } && box_type == stts_type() && count_overflow_at(
            stts_runs(entries@),
            accumulated_sample_count,
            entry_sample_count,
        ),
{
    let ghost runs = stts_runs(entries@);
    let mut sample_count: u32 = 0;
    let mut acc_duration: u64 = 0;
    let mut starts: Vec<u32> = Vec::new();
    let mut acc: Vec<u64> = Vec::new();
    let mut k: usize = 0;
    while k < entries.len()
        invariant
            runs == stts_runs(entries@),
            k <= entries@.len(),
            sample_count == run_total(runs.take(k as int)),
            acc_duration == seq_sum(run_expand(runs.take(k as int))),
            acc_duration <= sample_count * 0xffff_ffffnat,
            starts@.len() == k,
            acc@.len() == k,
            forall|m: int|
                0 <= m < k ==> #[trigger] starts@[m] == run_total(runs.take(m)) && acc@[m]
                    == seq_sum(run_expand(runs.take(m))),
        decreases entries@.len() - k,
    {
        let entry = entries[k];
        starts.push(sample_count);
        acc.push(acc_duration);
        proof {
            lemma_run_total_take(runs, k as int);
            assert(runs[k as int] == (entry.sample_count, entry.sample_delta));
        }
        match sample_count.checked_add(entry.sample_count) {
            Some(next) => {
                proof {
                    let d = entry.sample_delta;
                    let c = entry.sample_count;
                    lemma_seq_sum_append(run_expand(runs.take(k as int)), Seq::new(c as nat, |i: int| d));
                    lemma_seq_sum_const(c as nat, d);
                    assert(c * d <= c * 0xffff_ffffnat) by (nonlinear_arith);
                    assert(next * 0xffff_ffffnat <= 0xffff_ffffnat * 0xffff_ffffnat) by (nonlinear_arith)
                        requires next <= 0xffff_ffffnat;
                }
                acc_duration = acc_duration + entry.sample_delta as u64 * entry.sample_count as u64;
                sample_count = next;
            },
            None => {
                proof {
                    lemma_run_expand_prefix(runs, k + 1);
                    assert(sample_count == run_total(runs.take(k as int)));
                }
                return Err(
                    SampleTableAccessorError::SampleCountOverflow {
                        box_type: BoxType::Normal([0x73u8, 0x74, 0x74, 0x73]),
                        accumulated_sample_count: sample_count,
                        entry_sample_count: entry.sample_count,
                    },
                );
            },
        }
        k += 1;
    }
    proof {
        assert(runs.take(k as int) =~= runs);
    }
    Ok((sample_count, starts, acc))
}

/// Builds the `samples before run k` table of `ctts`.
fn build_ctts_table(entries: &Vec<CttsEntry>) -> (r: Result<
    (u32, Vec<u32>),
    SampleTableAccessorError,
>)
    ensures
        r is Ok <==> run_total(ctts_runs(entries@)) <= u32::MAX,
        r matches Ok((n, starts)) ==> {
            &&& n == run_total(ctts_runs(entries@))
            &&& starts@.len() == entries@.len()
            &&& forall|k: int|
                0 <= k < entries@.len() ==> #[trigger] starts@[k] == run_total(
                    ctts_runs(entries@).take(k),
                )
        },
        r matches Err(e) ==> e matches SampleTableAccessorError::SampleCountOverflow {
            box_type,
            accumulated_sample_count,
            entry_sample_count,
        } && box_type == ctts_type() && count_overflow_at(
            ctts_runs(entries@),
            accumulated_sample_count,
            entry_sample_count,
        ),
{
    let ghost runs = ctts_runs(entries@);
    let mut sample_count: u32 = 0;
    let mut starts: Vec<u32> = Vec::new();
    let mut k: usize = 0;
    while k < entries.len()
        invariant
            runs == ctts_runs(entries@),
            k <= entries@.len(),
            sample_count == run_total(runs.take(k as int)),
            starts@.len() == k,
            forall|m: int| 0 <= m < k ==> #[trigger] starts@[m] == run_total(runs.take(m)),
        decreases entries@.len() - k,
    {
        let entry = entries[k];
        starts.push(sample_count);
        proof {
            lemma_run_total_take(runs, k as int);
            assert(runs[k as int] == (entry.sample_count, entry.sample_offset));
        }
        match sample_count.checked_add(entry.sample_count) {
            Some(next) => {
                sample_count = next;
            },
            None => {
                proof {
                    lemma_run_expand_prefix(runs, k + 1);
                    assert(sample_count == run_total(runs.take(k as int)));
                }
                return Err(
                    SampleTableAccessorError::SampleCountOverflow {
                        box_type: BoxType::Normal([0x63u8, 0x74, 0x74, 0x73]),
                        accumulated_sample_count: sample_count,
                        entry_sample_count: entry.sample_count,
                    },
                );
            },
        }
        k += 1;
    }
    proof {
        assert(runs.take(k as int) =~= runs);
    }
    Ok((sample_count, starts))
}

} // verus!

verus! {

/// Reads the chunk offsets as 64 bit values.
fn chunk_offset_at(b: &StblBox, i: usize) -> (r: u64)
    requires
        i < chunk_total(*b),
    ensures
        r == chunk_offsets_of(*b)[i as int],
{
    match &b.stco_or_co64_box {
        Either::A(s) => s.chunk_offsets[i] as u64,
        Either::B(c) => c.chunk_offsets[i],
    }
}

/// Number of chunk offsets.
fn chunk_offset_count(b: &StblBox) -> (r: usize)
    ensures
        r == chunk_total(*b),
{
    match &b.stco_or_co64_box {
        Either::A(s) => s.chunk_offsets.len(),
        Either::B(c) => c.chunk_offsets.len(),
    }
}

/// Checks the ordering of the `stsc` entries and collects their `first_chunk` keys.
fn check_stsc(b: &StblBox, chunk_count: u32) -> (r: Result<Vec<u32>, SampleTableAccessorError>)
    requires
        chunk_count == chunk_total(*b),
    ensures
        r is Ok <==> stsc_consistent(*b),
        r matches Ok(keys) ==> keys@ == stsc_keys(*b),
        r matches Err(e) ==> stsc_error(*b, e),
{
    let entries = &b.stsc_box.entries;
    let n = entries.len();
    if chunk_count > 0 && n == 0 {
        return Err(SampleTableAccessorError::ChunksExistButNoSamples { chunk_count });
    }
    if n > 0 && entries[0].first_chunk != 1 {
        return Err(
            SampleTableAccessorError::FirstChunkIndexIsNotOne {
                actual_chunk_index: entries[0].first_chunk,
            },
        );
    }
    let entry_count = b.stsd_box.entries.len();
    let mut k: usize = 0;
    while k < n
        invariant
            n == b.stsc_box.entries@.len(),
            entries == &b.stsc_box.entries,
            entry_count == b.stsd_box.entries@.len(),
            stsc_nonempty_ok(*b),
            stsc_first_ok(*b),
            k <= n,
            forall|m: int|
                0 <= m < k ==> #[trigger] b.stsc_box.entries@[m].sample_description_index
                    <= entry_count,
        decreases n - k,
    {
        if entry_count < entries[k].sample_description_index as usize {
            return Err(
                SampleTableAccessorError::MissingSampleEntry {
                    stsc_entry_index: k,
                    sample_description_index: entries[k].sample_description_index,
                    sample_entry_count: entry_count,
                },
            );
        }
        k += 1;
    }
    let mut keys: Vec<u32> = Vec::new();
    let mut k: usize = 0;
    while k < n
        invariant
            n == b.stsc_box.entries@.len(),
            entries == &b.stsc_box.entries,
            stsc_nonempty_ok(*b),
            stsc_first_ok(*b),
            stsc_entries_ok(*b),
            k <= n,
            keys@.len() == k,
            forall|m: int| 0 <= m < k ==> #[trigger] keys@[m] == b.stsc_box.entries@[m].first_chunk,
            forall|m: int|
                0 <= m < k - 1 ==> #[trigger] b.stsc_box.entries@[m].first_chunk
                    < b.stsc_box.entries@[m + 1].first_chunk,
        decreases n - k,
    {
        if k > 0 && entries[k - 1].first_chunk >= entries[k].first_chunk {
            proof {
                let m = k - 1;
                assert(b.stsc_box.entries@[m as int].first_chunk >= b.stsc_box.entries@[m + 1].first_chunk);
            }
            return Err(SampleTableAccessorError::ChunkIndicesNotMonotonicallyIncreasing);
        }
        keys.push(entries[k].first_chunk);
        k += 1;
    }
    if chunk_count > 0 && n > 0 && chunk_count < entries[n - 1].first_chunk {
        return Err(
            SampleTableAccessorError::LastChunkIndexIsTooLarge {
                max_chunk_index: chunk_count,
                last_chunk_index: entries[n - 1].first_chunk,
            },
        );
    }
    proof {
        assert(keys@ =~= stsc_keys(*b));
    }
    Ok(keys)
}

/// Builds the first sample index of every chunk and checks that the chunks
/// hold exactly the samples of `stts`.
fn build_chunk_first_samples(b: &StblBox, keys: &Vec<u32>, chunk_count: u32, sample_count: u32) -> (r: Result<
    Vec<u64>,
    SampleTableAccessorError,
>)
    requires
        chunk_count == chunk_total(*b),
        sample_count == sample_total(*b),
        stsc_consistent(*b),
        keys@ == stsc_keys(*b),
    ensures
        r is Ok <==> chunk_first_sample(*b, (chunk_total(*b) + 1) as int) == sample_total(*b) + 1,
        r matches Ok(t) ==> t@.len() == chunk_total(*b) && forall|j: int|
            1 <= j <= chunk_total(*b) ==> #[trigger] t@[j - 1] == chunk_first_sample(*b, j),
        r matches Err(e) ==> e matches SampleTableAccessorError::InconsistentSampleCount {
            stts_sample_count,
            other_box_type,
            other_sample_count,
        } && stts_sample_count == sample_count && other_box_type == stsc_type()
            && other_sample_count == stsc_reported_count(*b),
{
    let ghost e = b.stsc_box.entries@;
    proof {
        lemma_adjacent_increasing_sorted(keys@);
        assert forall|k: int| 0 <= k < keys@.len() - 1 implies #[trigger] keys@[k] < keys@[k + 1] by {
            assert(e[k].first_chunk < e[k + 1].first_chunk);
        }
        lemma_adjacent_increasing_sorted(keys@);
    }
    let mut table: Vec<u64> = Vec::new();
    let mut first: u64 = 1;
    let mut j: u64 = 1;
    while j <= chunk_count as u64
        invariant
            chunk_count == chunk_total(*b),
            stsc_consistent(*b),
            keys@ == stsc_keys(*b),
            sorted_nondecreasing(keys@),
            1 <= j <= chunk_count + 1,
            first == chunk_first_sample(*b, j as int),
            1 <= first <= 1 + (j - 1) * 0xffff_ffffnat,
            table@.len() == j - 1,
            forall|m: int| 1 <= m < j ==> #[trigger] table@[m - 1] == chunk_first_sample(*b, m),
        decreases chunk_count + 1 - j,
    {
        table.push(first);
        let k = search_rightmost_le(keys, j as u32);
        let spc = b.stsc_box.entries[k].sample_per_chunk;
        proof {
            lemma_chunk_first_sample_step(*b, j as int);
            assert(samples_in_chunk(*b, j as int) == spc);
            assert((j - 1) * 0xffff_ffffnat + 0xffff_ffffnat == j * 0xffff_ffffnat) by (nonlinear_arith);
            assert(j * 0xffff_ffffnat <= 0xffff_ffffnat * 0xffff_ffffnat) by (nonlinear_arith)
                requires j <= 0xffff_ffffnat;
        }
        first = first + spc as u64;
        j = j + 1;
    }
    if first - 1 != sample_count as u64 {
        let other: u32 = if first - 1 >= u32::MAX as u64 {
            u32::MAX - 1
        } else {
            (first - 1) as u32
        };
        return Err(
            SampleTableAccessorError::InconsistentSampleCount {
                stts_sample_count: sample_count,
                other_box_type: BoxType::Normal([0x73u8, 0x74, 0x73, 0x63]),
                other_sample_count: other,
            },
        );
    }
    Ok(table)
}

} // verus!

verus! {

/// Checks, for a fixed sample size, that no chunk's data ends past `u64::MAX`.
fn validate_fixed_sample_data_offsets(
    b: &StblBox,
    keys: &Vec<u32>,
    firsts: &Vec<u64>,
    chunk_count: u32,
    sample_size: u32,
) -> (r: Result<(), SampleTableAccessorError>)
    requires
        b.stsz_box matches StszBox::Fixed { sample_size: s, .. } && s == sample_size,
        sample_size >= 1,
        chunk_count == chunk_total(*b),
        sample_total(*b) <= u32::MAX,
        stsc_consistent(*b),
        keys@ == stsc_keys(*b),
        firsts@.len() == chunk_total(*b),
        forall|j: int| 1 <= j <= chunk_total(*b) ==> #[trigger] firsts@[j - 1] == chunk_first_sample(*b, j),
        chunk_first_sample(*b, (chunk_total(*b) + 1) as int) == sample_total(*b) + 1,
    ensures
        r is Ok <==> offsets_ok(*b),
        r matches Err(e) ==> e matches SampleTableAccessorError::SampleDataOffsetOverflow {
            sample_index,
            accumulated_offset,
            sample_data_size,
        } && offset_overflow_at(*b, sample_index as int, accumulated_offset, sample_data_size),
{
    proof {
        let e = b.stsc_box.entries@;
        assert forall|k: int| 0 <= k < keys@.len() - 1 implies #[trigger] keys@[k] < keys@[k + 1] by {
            assert(e[k].first_chunk < e[k + 1].first_chunk);
        }
        lemma_adjacent_increasing_sorted(keys@);
    }
    let mut j: u64 = 1;
    while j <= chunk_count as u64
        invariant
            b.stsz_box matches StszBox::Fixed { sample_size: s, .. } && s == sample_size,
            sample_size >= 1,
            chunk_count == chunk_total(*b),
            sample_total(*b) <= u32::MAX,
            stsc_consistent(*b),
            keys@ == stsc_keys(*b),
            sorted_nondecreasing(keys@),
            firsts@.len() == chunk_total(*b),
            forall|m: int| 1 <= m <= chunk_total(*b) ==> #[trigger] firsts@[m - 1] == chunk_first_sample(*b, m),
            chunk_first_sample(*b, (chunk_total(*b) + 1) as int) == sample_total(*b) + 1,
            1 <= j <= chunk_count + 1,
            forall|m: int| 1 <= m < j ==> #[trigger] chunk_end(*b, m) <= u64::MAX,
        decreases chunk_count + 1 - j,
    {
        let base = chunk_offset_at(b, (j - 1) as usize);
        let k = search_rightmost_le(keys, j as u32);
        let count = b.stsc_box.entries[k].sample_per_chunk as u64;
        let first = firsts[(j - 1) as usize];
        let s = sample_size as u64;
        let room = (u64::MAX - base) / s;
        proof {
            assert(firsts@[j - 1] == chunk_first_sample(*b, j as int));
            assert(first == chunk_first_sample(*b, j as int));
            assert(samples_in_chunk(*b, j as int) == count);
            lemma_size_sum_fixed(*b, first as int, first + count, sample_size);
            assert(chunk_end(*b, j as int) == base + count * s);
            let m = (u64::MAX - base) as int;
            assert(count <= m / (s as int) <==> count * s <= m) by (nonlinear_arith)
                requires s >= 1, m >= 0;
        }
        if count > room {
            proof {
                lemma_chunk_first_sample_step(*b, j as int);
                lemma_chunk_first_sample_monotone(*b, j + 1, chunk_count + 1);
                let mm = (u64::MAX - base) as int;
                assert((room as int) * (s as int) <= mm && mm < (room as int + 1) * (s as int))
                    by (nonlinear_arith)
                    requires s >= 1, room as int == mm / (s as int), mm >= 0;
                assert(chunk_end(*b, j as int) > u64::MAX);
                let i = first + room;
                lemma_chunk_of_sample(*b, i as int, j as int);
                lemma_size_sum_fixed(*b, first as int, i as int, sample_size);
                assert((room as int + 1) * (s as int) == room * s + s) by (nonlinear_arith);
                lemma_chunk_first_sample_monotone(*b, 1, j as int);
                assert(chunk_of_sample(*b, i as int) == j);
                assert(sample_data_offset_of(*b, i as int) == base + room * s);
                assert(sample_size_of(*b, i as int) == sample_size);
                assert(offset_overflow_at(*b, i as int, (base + room * s) as u64, sample_size));
            }
            return Err(
                SampleTableAccessorError::SampleDataOffsetOverflow {
                    sample_index: (first + room) as u32,
                    accumulated_offset: base + room * s,
                    sample_data_size: sample_size,
                },
            );
        }
        j = j + 1;
    }
    Ok(())
}

/// Builds, for varying sample sizes, the data offset of every sample,
/// failing when a chunk's data ends past `u64::MAX`.
fn build_variable_sample_data_offsets(
    b: &StblBox,
    entry_sizes: &Vec<u32>,
    keys: &Vec<u32>,
    firsts: &Vec<u64>,
    chunk_count: u32,
) -> (r: Result<Vec<u64>, SampleTableAccessorError>)
    requires
        b.stsz_box matches StszBox::Variable { entry_sizes: es } && es@ == entry_sizes@,
        entry_sizes@.len() == sample_total(*b),
        chunk_count == chunk_total(*b),
        sample_total(*b) <= u32::MAX,
        stsc_consistent(*b),
        keys@ == stsc_keys(*b),
        firsts@.len() == chunk_total(*b),
        forall|j: int| 1 <= j <= chunk_total(*b) ==> #[trigger] firsts@[j - 1] == chunk_first_sample(*b, j),
        chunk_first_sample(*b, (chunk_total(*b) + 1) as int) == sample_total(*b) + 1,
    ensures
        r is Ok <==> offsets_ok(*b),
        r matches Ok(t) ==> t@.len() == sample_total(*b) && forall|i: int|
            1 <= i <= sample_total(*b) ==> #[trigger] t@[i - 1] == sample_data_offset_of(*b, i),
        r matches Err(e) ==> e matches SampleTableAccessorError::SampleDataOffsetOverflow {
            sample_index,
            accumulated_offset,
            sample_data_size,
        } && offset_overflow_at(*b, sample_index as int, accumulated_offset, sample_data_size),
{
    proof {
        let e = b.stsc_box.entries@;
        assert forall|k: int| 0 <= k < keys@.len() - 1 implies #[trigger] keys@[k] < keys@[k + 1] by {
            assert(e[k].first_chunk < e[k + 1].first_chunk);
        }
        lemma_adjacent_increasing_sorted(keys@);
    }
    let mut table: Vec<u64> = Vec::new();
    let mut j: u64 = 1;
    while j <= chunk_count as u64
        invariant
            b.stsz_box matches StszBox::Variable { entry_sizes: es } && es@ == entry_sizes@,
            entry_sizes@.len() == sample_total(*b),
            chunk_count == chunk_total(*b),
            sample_total(*b) <= u32::MAX,
            stsc_consistent(*b),
            keys@ == stsc_keys(*b),
            sorted_nondecreasing(keys@),
            firsts@.len() == chunk_total(*b),
            forall|m: int| 1 <= m <= chunk_total(*b) ==> #[trigger] firsts@[m - 1] == chunk_first_sample(*b, m),
            chunk_first_sample(*b, (chunk_total(*b) + 1) as int) == sample_total(*b) + 1,
            1 <= j <= chunk_count + 1,
            table@.len() == chunk_first_sample(*b, j as int) - 1,
            forall|i: int| 1 <= i < chunk_first_sample(*b, j as int) ==> #[trigger] table@[i - 1] == sample_data_offset_of(*b, i),
            forall|m: int| 1 <= m < j ==> #[trigger] chunk_end(*b, m) <= u64::MAX,
        decreases chunk_count + 1 - j,
    {
        let base = chunk_offset_at(b, (j - 1) as usize);
        let k = search_rightmost_le(keys, j as u32);
        let count = b.stsc_box.entries[k].sample_per_chunk as u64;
        let first = firsts[(j - 1) as usize];
        proof {
            assert(samples_in_chunk(*b, j as int) == count);
            lemma_chunk_first_sample_step(*b, j as int);
            lemma_chunk_first_sample_monotone(*b, j + 1, chunk_count + 1);
            lemma_chunk_first_sample_monotone(*b, 1, j as int);
        }
        let mut offset: u64 = base;
        let mut m: u64 = 0;
        while m < count
            invariant
                b.stsz_box matches StszBox::Variable { entry_sizes: es } && es@ == entry_sizes@,
                entry_sizes@.len() == sample_total(*b),
                1 <= j <= chunk_count,
                chunk_count == chunk_total(*b),
                base == chunk_offsets_of(*b)[j - 1],
                first == chunk_first_sample(*b, j as int),
                first >= 1,
                count == samples_in_chunk(*b, j as int),
                first + count <= sample_total(*b) + 1,
                sample_total(*b) <= u32::MAX,
                m <= count,
                offset == base + size_sum(*b, first as int, first + m),
                table@.len() == first + m - 1,
                forall|i: int| 1 <= i < first + m ==> #[trigger] table@[i - 1] == sample_data_offset_of(*b, i),
                forall|c: int| 1 <= c < j ==> #[trigger] chunk_end(*b, c) <= u64::MAX,
            decreases count - m,
        {
            let index = first + m;
            table.push(offset);
            proof {
                lemma_chunk_of_sample(*b, index as int, j as int);
                assert(table@[index - 1] == sample_data_offset_of(*b, index as int));
            }
            let size = entry_sizes[(index - 1) as usize];
            proof {
                assert(sample_size_of(*b, index as int) == size);
            }
            match offset.checked_add(size as u64) {
                Some(next) => {
                    offset = next;
                },
                None => {
                    proof {
                        lemma_size_sum_monotone(*b, first as int, index + 1, first + count);
                        assert(chunk_end(*b, j as int) > u64::MAX);
                        assert(offset_overflow_at(*b, index as int, offset, size));
                    }
                    return Err(
                        SampleTableAccessorError::SampleDataOffsetOverflow {
                            sample_index: index as u32,
                            accumulated_offset: offset,
                            sample_data_size: size,
                        },
                    );
                },
            }
            m = m + 1;
        }
        proof {
            assert(chunk_end(*b, j as int) == offset);
        }
        j = j + 1;
    }
    Ok(table)
}

} // verus!

verus! {

/// Duration of sample `i` (1-based).
pub open spec fn sample_duration(b: StblBox, i: int) -> u32 {
    sample_durations(b)[i - 1]
}

/// Timestamp of sample `i` (1-based): the durations of the samples before it.
pub open spec fn sample_timestamp(b: StblBox, i: int) -> nat {
    seq_sum(sample_durations(b).take(i - 1))
}

/// Sample `i` answers a lookup at time `t`: it starts exactly at `t`, or its
/// span `[timestamp, timestamp + duration)` holds `t`.
pub open spec fn sample_answers(b: StblBox, i: int, t: nat) -> bool {
    sample_timestamp(b, i) == t || (sample_timestamp(b, i) <= t && t < sample_timestamp(b, i)
        + sample_duration(b, i))
}

/// The sample that bisection over the samples `low + 1 ..= high` settles on
/// for time `t`: it probes the middle sample, answers with it when it
/// answers `t`, and otherwise goes on in the half on `t`'s side.
pub open spec fn timestamp_bisect(b: StblBox, t: nat, low: int, high: int) -> Option<int>
    decreases high - low,
{
    if high <= low {
        None
    } else {
        let i = (high - low) / 2 + low;
        if t < sample_timestamp(b, i + 1) {
            timestamp_bisect(b, t, low, i)
        } else if sample_answers(b, i + 1, t) {
            Some(i + 1)
        } else {
            timestamp_bisect(b, t, i + 1, high)
        }
    }
}

/// Bisection answers with a sample of its range that answers `t`, and finds
/// none only when no sample of its range answers `t`.
pub proof fn lemma_bisect_answers(b: StblBox, t: nat, low: int, high: int)
    requires
        0 <= low <= high <= sample_total(b),
    ensures
        timestamp_bisect(b, t, low, high) matches Some(k) ==> low < k <= high && sample_answers(
            b,
            k,
            t,
        ),
        timestamp_bisect(b, t, low, high) is None ==> forall|j: int|
            low < j <= high ==> !#[trigger] sample_answers(b, j, t),
    decreases high - low,
{
    if high > low {
        let i = (high - low) / 2 + low;
        if t < sample_timestamp(b, i + 1) {
            lemma_bisect_answers(b, t, low, i);
            assert forall|j: int| i < j <= high implies !#[trigger] sample_answers(b, j, t) by {
                lemma_timestamp_monotone(b, i + 1, j);
            }
        } else if !sample_answers(b, i + 1, t) {
            lemma_bisect_answers(b, t, i + 1, high);
            assert forall|j: int| low < j <= i + 1 implies !#[trigger] sample_answers(b, j, t) by {
                lemma_timestamp_monotone(b, j, i + 1);
                if j < i + 1 {
                    lemma_timestamp_step(b, j);
                    lemma_timestamp_monotone(b, j + 1, i + 1);
                }
            }
        }
    }
}

/// A sample whose span holds `t` strictly after its start is the only sample
/// that answers `t`, so bisection settles on it.
pub proof fn lemma_interior_sample_unique(b: StblBox, t: nat, i: int)
    requires
        1 <= i <= sample_total(b),
        sample_timestamp(b, i) < t < sample_timestamp(b, i) + sample_duration(b, i),
    ensures
        forall|j: int| 1 <= j <= sample_total(b) && #[trigger] sample_answers(b, j, t) ==> j == i,
        timestamp_bisect(b, t, 0, sample_total(b) as int) == Some(i),
{
    assert forall|j: int| 1 <= j <= sample_total(b) && #[trigger] sample_answers(b, j, t) implies j
        == i by {
        if j < i {
            lemma_timestamp_step(b, j);
            lemma_timestamp_monotone(b, j, i);
            lemma_timestamp_monotone(b, j + 1, i);
        } else if j > i {
            lemma_timestamp_step(b, i);
            lemma_timestamp_monotone(b, i + 1, j);
        }
    }
    lemma_bisect_answers(b, t, 0, sample_total(b) as int);
    assert(sample_answers(b, i, t));
}

/// Random access to the samples and chunks of a sample table (`stbl`),
/// with the lookup tables built once by [`SampleTableAccessor::new`].
#[derive(Debug)]
pub struct SampleTableAccessor<'a> {
    stbl_box: &'a StblBox,
    chunk_count: u32,
    sample_count: u32,
    stts_starts: Vec<u32>,
    stts_acc: Vec<u64>,
    ctts_starts: Vec<u32>,
    stsc_keys: Vec<u32>,
    sample_index_offsets: Vec<u64>,
    sample_data_offsets: Vec<u64>,
}

impl<'a> SampleTableAccessor<'a> {
    /// The lookup tables agree with the sample table they were built from.
    #[verifier::type_invariant]
    closed spec fn inv(self) -> bool {
        let b = *self.stbl_box;
        let runs = stts_runs(b.stts_box.entries@);
        &&& stbl_wf(b)
        &&& sample_table_consistent(b)
        &&& self.chunk_count == chunk_total(b)
        &&& self.sample_count == sample_total(b)
        &&& self.stts_starts@.len() == runs.len()
        &&& self.stts_acc@.len() == runs.len()
        &&& forall|k: int|
            0 <= k < runs.len() ==> #[trigger] self.stts_starts@[k] == run_total(runs.take(k))
                && self.stts_acc@[k] == seq_sum(run_expand(runs.take(k)))
        &&& (match b.ctts_box {
            Some(c) => self.ctts_starts@.len() == c.entries@.len() && forall|k: int|
                0 <= k < c.entries@.len() ==> #[trigger] self.ctts_starts@[k] == run_total(
                    ctts_runs(c.entries@).take(k),
                ),
            None => true,
        })
        &&& self.stsc_keys@ == stsc_keys(b)
        &&& self.sample_index_offsets@.len() == chunk_total(b)
        &&& forall|j: int|
            1 <= j <= chunk_total(b) ==> #[trigger] self.sample_index_offsets@[j - 1]
                == chunk_first_sample(b, j)
        &&& (b.stsz_box is Variable ==> self.sample_data_offsets@.len() == sample_total(b)
            && forall|i: int|
            1 <= i <= sample_total(b) ==> #[trigger] self.sample_data_offsets@[i - 1]
                == sample_data_offset_of(b, i))
    }

    /// The sample table this accessor reads.
    pub closed spec fn stbl(self) -> StblBox {
        *self.stbl_box
    }

    /// Builds the lookup tables for `stbl_box`, checking that its boxes agree.
    pub fn new(stbl_box: &'a StblBox) -> (r: Result<Self, SampleTableAccessorError>)
        requires
            stbl_wf(*stbl_box),
        ensures
            r is Ok <==> sample_table_consistent(*stbl_box),
            r matches Ok(a) ==> a.stbl() == *stbl_box,
            r matches Err(e) ==> accessor_error(*stbl_box, e),
    {
        let (sample_count, stts_starts, stts_acc) = match build_stts_table(&stbl_box.stts_box.entries) {
            Ok(t) => t,
            Err(e) => return Err(e),
        };
        match &stbl_box.stsz_box {
            StszBox::Variable { entry_sizes } => {
                if entry_sizes.len() != sample_count as usize {
                    return Err(
                        SampleTableAccessorError::InconsistentSampleCount {
                            stts_sample_count: sample_count,
                            other_box_type: BoxType::Normal([0x73u8, 0x74, 0x73, 0x7a]),
                            other_sample_count: entry_sizes.len() as u32,
                        },
                    );
                }
            },
            StszBox::Fixed { sample_count: stsz_sample_count, .. } => {
                if *stsz_sample_count != sample_count {
                    return Err(
                        SampleTableAccessorError::InconsistentSampleCount {
                            stts_sample_count: sample_count,
                            other_box_type: BoxType::Normal([0x73u8, 0x74, 0x73, 0x7a]),
                            other_sample_count: *stsz_sample_count,
                        },
                    );
                }
            },
        }
        let ctts_starts = match &stbl_box.ctts_box {
            Some(c) => {
                let (ctts_count, starts) = match build_ctts_table(&c.entries) {
                    Ok(t) => t,
                    Err(e) => return Err(e),
                };
                if ctts_count != sample_count {
                    return Err(
                        SampleTableAccessorError::InconsistentSampleCount {
                            stts_sample_count: sample_count,
                            other_box_type: BoxType::Normal([0x63u8, 0x74, 0x74, 0x73]),
                            other_sample_count: ctts_count,
                        },
                    );
                }
                starts
            },
            None => Vec::new(),
        };
        let chunk_count = chunk_offset_count(stbl_box) as u32;
        let keys = match check_stsc(stbl_box, chunk_count) {
            Ok(k) => k,
            Err(e) => return Err(e),
        };
        let firsts = match build_chunk_first_samples(stbl_box, &keys, chunk_count, sample_count) {
            Ok(t) => t,
            Err(e) => return Err(e),
        };
        let sample_data_offsets = match &stbl_box.stsz_box {
            StszBox::Fixed { sample_size, .. } => {
                match validate_fixed_sample_data_offsets(
                    stbl_box,
                    &keys,
                    &firsts,
                    chunk_count,
                    *sample_size,
                ) {
                    Ok(()) => Vec::new(),
                    Err(e) => return Err(e),
                }
            },
            StszBox::Variable { entry_sizes } => {
                match build_variable_sample_data_offsets(
                    stbl_box,
                    entry_sizes,
                    &keys,
                    &firsts,
                    chunk_count,
                ) {
                    Ok(t) => t,
                    Err(e) => return Err(e),
                }
            },
        };
        Ok(
            SampleTableAccessor {
                stbl_box,
                chunk_count,
                sample_count,
                stts_starts,
                stts_acc,
                ctts_starts,
                stsc_keys: keys,
                sample_index_offsets: firsts,
                sample_data_offsets,
            },
        )
    }
}


impl<'a> SampleTableAccessor<'a> {
    /// The `stts` run holding sample `i`.
    fn stts_run_of(&self, i: u32) -> (k: usize)
        requires
            1 <= i <= sample_total(self.stbl()),
        ensures
            k < self.stbl().stts_box.entries@.len(),
            run_total(stts_runs(self.stbl().stts_box.entries@).take(k as int)) <= i - 1,
            i - 1 < run_total(stts_runs(self.stbl().stts_box.entries@).take(k as int))
                + self.stbl().stts_box.entries@[k as int].sample_count,
            self.stts_starts@[k as int] == run_total(
                stts_runs(self.stbl().stts_box.entries@).take(k as int),
            ),
            self.stts_acc@[k as int] == seq_sum(
                run_expand(stts_runs(self.stbl().stts_box.entries@).take(k as int)),
            ),
    {
        proof {
            use_type_invariant(self);
        }
        let ghost b = self.stbl();
        let ghost runs = stts_runs(b.stts_box.entries@);
        proof {
            if runs.len() == 0 {
                assert(false);
            }
            assert(runs.take(0) =~= Seq::<(u32, u32)>::empty());
            assert(self.stts_starts@[0] == run_total(runs.take(0)));
            assert forall|a: int, c: int|
                0 <= a <= c < self.stts_starts@.len() implies self.stts_starts@[a]
                <= self.stts_starts@[c] by {
                lemma_run_total_take_monotone(runs, a, c);
                assert(self.stts_starts@[a] == run_total(runs.take(a)));
                assert(self.stts_starts@[c] == run_total(runs.take(c)));
            }
        }
        let k = search_rightmost_le(&self.stts_starts, i - 1);
        proof {
            lemma_rightmost_le(self.stts_starts@, self.stts_starts@.len() as int, i - 1);
            lemma_run_total_take(runs, k as int);
            assert(self.stts_starts@[k as int] == run_total(runs.take(k as int)));
            if k + 1 < runs.len() {
                assert(self.stts_starts@[k + 1] == run_total(runs.take(k + 1)));
            } else {
                assert(runs.take(k + 1) =~= runs);
            }
        }
        k
    }

    /// Duration of sample `i`.
    fn duration_of(&self, i: u32) -> (d: u32)
        requires
            1 <= i <= sample_total(self.stbl()),
        ensures
            d == sample_duration(self.stbl(), i as int),
    {
        let k = self.stts_run_of(i);
        proof {
            let runs = stts_runs(self.stbl().stts_box.entries@);
            lemma_run_expand_at(runs, k as int, i - 1);
        }
        self.stbl_box.stts_box.entries[k].sample_delta
    }

    /// Timestamp of sample `i`.
    fn timestamp_of(&self, i: u32) -> (t: u64)
        requires
            1 <= i <= sample_total(self.stbl()),
        ensures
            t == sample_timestamp(self.stbl(), i as int),
    {
        proof {
            use_type_invariant(self);
        }
        let k = self.stts_run_of(i);
        let start = self.stts_starts[k];
        let acc = self.stts_acc[k];
        let delta = self.stbl_box.stts_box.entries[k].sample_delta;
        proof {
            let b = self.stbl();
            let runs = stts_runs(b.stts_box.entries@);
            let idx = i - 1;
            lemma_run_expand_at(runs, k as int, idx);
            let pre = run_expand(runs.take(k as int));
            let tail = Seq::new((idx - start) as nat, |q: int| delta);
            assert(tail =~= Seq::new((idx - start) as nat, |q: int| runs[k as int].1));
            lemma_seq_sum_append(pre, tail);
            lemma_seq_sum_const((idx - start) as nat, delta);
            lemma_run_expand_len(runs);
            let ts = sample_durations(b).take(idx);
            assert(ts.len() == idx);
            lemma_seq_sum_bound(ts);
            assert(idx * 0xffff_ffffnat <= 0xffff_ffffnat * 0xffff_ffffnat) by (nonlinear_arith)
                requires idx <= 0xffff_ffffnat;
            assert(seq_sum(ts) == acc + (idx - start) * delta);
            assert((idx - start) * delta == delta * (idx - start)) by (nonlinear_arith);
        }
        acc + delta as u64 * ((i - 1 - start) as u64)
    }
}


/// The running totals before each run are sorted.
proof fn lemma_run_starts_sorted<V>(runs: Seq<(u32, V)>, starts: Seq<u32>)
    requires
        starts.len() == runs.len(),
        forall|k: int| 0 <= k < runs.len() ==> #[trigger] starts[k] == run_total(runs.take(k)),
    ensures
        sorted_nondecreasing(starts),
        runs.len() > 0 ==> starts[0] == 0,
{
    if runs.len() > 0 {
        assert(runs.take(0) =~= Seq::<(u32, V)>::empty());
        assert(starts[0] == run_total(runs.take(0)));
    }
    assert forall|a: int, c: int| 0 <= a <= c < starts.len() implies starts[a] <= starts[c] by {
        lemma_run_total_take_monotone(runs, a, c);
        assert(starts[a] == run_total(runs.take(a)));
        assert(starts[c] == run_total(runs.take(c)));
    }
}

/// The last run starting at or before `idx` holds the value of sample `idx`.
proof fn lemma_run_lookup<V>(runs: Seq<(u32, V)>, starts: Seq<u32>, idx: int, k: int)
    requires
        starts.len() == runs.len(),
        forall|m: int| 0 <= m < runs.len() ==> #[trigger] starts[m] == run_total(runs.take(m)),
        0 <= idx < run_total(runs),
        0 <= k < runs.len(),
        k == rightmost_le(starts, starts.len() as int, idx),
    ensures
        run_total(runs.take(k)) <= idx < run_total(runs.take(k)) + runs[k].0,
        run_expand(runs)[idx] == runs[k].1,
{
    lemma_rightmost_le(starts, starts.len() as int, idx);
    lemma_run_total_take(runs, k);
    assert(starts[k] == run_total(runs.take(k)));
    if k + 1 < runs.len() {
        assert(starts[k + 1] == run_total(runs.take(k + 1)));
    } else {
        assert(runs.take(k + 1) =~= runs);
    }
    lemma_run_expand_at(runs, k, idx);
}

/// The largest of `s[0..n]` that is at most `t`, or 0 when there is none.
pub open spec fn max_le(s: Seq<u32>, n: int, t: int) -> int
    decreases n,
{
    if n <= 0 {
        0
    } else {
        let m = max_le(s, n - 1, t);
        if s[n - 1] <= t && s[n - 1] > m {
            s[n - 1] as int
        } else {
            m
        }
    }
}

proof fn lemma_max_le(s: Seq<u32>, n: int, t: int)
    requires
        0 <= n <= s.len(),
    ensures
        0 <= max_le(s, n, t) <= t || (max_le(s, n, t) == 0),
        forall|k: int| 0 <= k < n && s[k] <= t ==> s[k] <= max_le(s, n, t),
        max_le(s, n, t) != 0 ==> exists|k: int| 0 <= k < n && s[k] == max_le(s, n, t),
        max_le(s, n, t) >= 0,
    decreases n,
{
    if n > 0 {
        lemma_max_le(s, n - 1, t);
        let m = max_le(s, n - 1, t);
        if m != 0 {
            let k = choose|k: int| 0 <= k < n - 1 && s[k] == m;
            assert(0 <= k < n && s[k] == m);
        }
        if s[n - 1] <= t && s[n - 1] > m {
            assert(0 <= n - 1 < n && s[n - 1] == max_le(s, n, t));
        }
    }
}

/// Whether sample `i` is a sync sample: listed in `stss`, or any sample
/// when there is no `stss`.
pub open spec fn sample_is_sync(b: StblBox, i: int) -> bool {
    match b.stss_box {
        Some(s) => exists|k: int|
            0 <= k < s.sample_numbers@.len() && #[trigger] s.sample_numbers@[k] == i,
        None => true,
    }
}

/// The sync sample that decoding sample `i` starts from: the largest
/// sync sample number at most `i`, `i` itself without `stss`.
pub open spec fn sync_sample_of(b: StblBox, i: int) -> Option<u32> {
    match b.stss_box {
        Some(s) => {
            let m = max_le(s.sample_numbers@, s.sample_numbers@.len() as int, i);
            if m == 0 {
                None
            } else {
                Some(m as u32)
            }
        },
        None => Some(i as u32),
    }
}

/// Composition time offset of sample `i`, when there is a `ctts`.
pub open spec fn sample_composition_offset(b: StblBox, i: int) -> Option<i64> {
    match b.ctts_box {
        Some(c) => Some(run_expand(ctts_runs(c.entries@))[i - 1]),
        None => None,
    }
}

impl<'a> SampleTableAccessor<'a> {
    /// The chunk holding sample `i`.
    fn chunk_of(&self, i: u32) -> (c: u32)
        requires
            1 <= i <= sample_total(self.stbl()),
        ensures
            1 <= c <= chunk_total(self.stbl()),
            chunk_first_sample(self.stbl(), c as int) <= i < chunk_first_sample(self.stbl(), c as int)
                + samples_in_chunk(self.stbl(), c as int),
            c == chunk_of_sample(self.stbl(), i as int),
    {
        proof {
            use_type_invariant(self);
        }
        let ghost b = self.stbl();
        let n = self.chunk_count;
        proof {
            if n == 0 {
                assert(chunk_first_sample(b, 1) == 1);
                assert(false);
            }
            assert(self.sample_index_offsets@[0] == chunk_first_sample(b, 1));
        }
        let mut lo: u32 = 1;
        let mut hi: u32 = n;
        while lo < hi
            invariant
                n == chunk_total(b),
                b == self.stbl(),
                self.sample_index_offsets@.len() == n,
                forall|j: int|
                    1 <= j <= n ==> #[trigger] self.sample_index_offsets@[j - 1] == chunk_first_sample(b, j),
                1 <= lo <= hi <= n,
                chunk_first_sample(b, lo as int) <= i,
                forall|m: int| hi < m <= n ==> #[trigger] chunk_first_sample(b, m) > i,
            decreases hi - lo,
        {
            let mid = lo + (hi - lo + 1) / 2;
            if self.sample_index_offsets[(mid - 1) as usize] <= i as u64 {
                lo = mid;
            } else {
                proof {
                    assert forall|m: int| mid - 1 < m <= n implies #[trigger] chunk_first_sample(b, m) > i by {
                        lemma_chunk_first_sample_monotone(b, mid as int, m);
                    }
                }
                hi = mid - 1;
            }
        }
        proof {
            lemma_chunk_first_sample_step(b, lo as int);
            if lo < n {
                assert(chunk_first_sample(b, lo + 1) > i);
            }
            lemma_chunk_of_sample(b, i as int, lo as int);
        }
        lo
    }

    /// The `stsc` entry describing chunk `j`.
    fn stsc_index_of(&self, j: u32) -> (k: usize)
        requires
            1 <= j <= chunk_total(self.stbl()),
        ensures
            k < self.stbl().stsc_box.entries@.len(),
            k == stsc_index_of_chunk(self.stbl(), j as int),
    {
        proof {
            use_type_invariant(self);
            let b = self.stbl();
            let e = b.stsc_box.entries@;
            assert forall|k: int| 0 <= k < self.stsc_keys@.len() - 1 implies #[trigger] self.stsc_keys@[k]
                < self.stsc_keys@[k + 1] by {
                assert(e[k].first_chunk < e[k + 1].first_chunk);
            }
            lemma_adjacent_increasing_sorted(self.stsc_keys@);
        }
        search_rightmost_le(&self.stsc_keys, j)
    }

    /// Composition offset of sample `i`.
    fn composition_offset_of(&self, i: u32) -> (r: Option<i64>)
        requires
            1 <= i <= sample_total(self.stbl()),
        ensures
            r == sample_composition_offset(self.stbl(), i as int),
    {
        proof {
            use_type_invariant(self);
        }
        match &self.stbl_box.ctts_box {
            None => None,
            Some(c) => {
                let ghost runs = ctts_runs(c.entries@);
                proof {
                    lemma_run_starts_sorted(runs, self.ctts_starts@);
                }
                let k = search_rightmost_le(&self.ctts_starts, i - 1);
                proof {
                    lemma_run_lookup(runs, self.ctts_starts@, i - 1, k as int);
                }
                Some(c.entries[k].sample_offset)
            },
        }
    }

    /// Whether sample `i` is a sync sample.
    fn is_sync_of(&self, i: u32) -> (r: bool)
        ensures
            r == sample_is_sync(self.stbl(), i as int),
    {
        match &self.stbl_box.stss_box {
            None => true,
            Some(s) => {
                let mut k: usize = 0;
                while k < s.sample_numbers.len()
                    invariant
                        self.stbl().stss_box == Some(*s),
                        k <= s.sample_numbers@.len(),
                        forall|m: int| 0 <= m < k ==> s.sample_numbers@[m] != i,
                    decreases s.sample_numbers@.len() - k,
                {
                    if s.sample_numbers[k] == i {
                        proof {
                            assert(s.sample_numbers@[k as int] == i);
                            let ss = self.stbl().stss_box->0;
                            assert(ss == *s);
                            assert(ss.sample_numbers@[k as int] == i);
                            assert(sample_is_sync(self.stbl(), i as int));
                        }
                        return true;
                    }
                    k += 1;
                }
                false
            },
        }
    }

    /// The sync sample that decoding sample `i` starts from.
    fn sync_of(&self, i: u32) -> (r: Option<u32>)
        requires
            1 <= i <= sample_total(self.stbl()),
        ensures
            r == sync_sample_of(self.stbl(), i as int),
            r matches Some(x) ==> 1 <= x <= i,
    {
        proof {
            use_type_invariant(self);
        }
        match &self.stbl_box.stss_box {
            None => Some(i),
            Some(s) => {
                let ghost ns = s.sample_numbers@;
                let mut best: u32 = 0;
                let mut k: usize = 0;
                while k < s.sample_numbers.len()
                    invariant
                        ns == s.sample_numbers@,
                        k <= ns.len(),
                        best == max_le(ns, k as int, i as int),
                        best <= i,
                    decreases ns.len() - k,
                {
                    let x = s.sample_numbers[k];
                    proof {
                        assert(ns.take(k + 1).drop_last() =~= ns.take(k as int));
                    }
                    if x <= i && x > best {
                        best = x;
                    }
                    k += 1;
                }
                proof {
                    lemma_max_le(ns, ns.len() as int, i as int);
                    if best != 0 {
                        let w = choose|w: int| 0 <= w < ns.len() && ns[w] == best;
                        assert(ns[w] >= 1);
                    }
                }
                if best == 0 {
                    None
                } else {
                    Some(best)
                }
            },
        }
    }
}


/// One sample of a [`SampleTableAccessor`].
#[derive(Debug)]
pub struct SampleAccessor<'a> {
    sample_table: &'a SampleTableAccessor<'a>,
    index: u32,
}

/// One chunk of a [`SampleTableAccessor`].
#[derive(Debug)]
pub struct ChunkAccessor<'a> {
    sample_table: &'a SampleTableAccessor<'a>,
    index: u32,
}

impl<'a> SampleAccessor<'a> {
    /// The index names an existing sample.
    #[verifier::type_invariant]
    closed spec fn inv(self) -> bool {
        1 <= self.index <= self.sample_table.sample_count
    }

    /// The sample table the sample belongs to.
    pub closed spec fn table(self) -> StblBox {
        self.sample_table.stbl()
    }

    /// The sample's 1-based index.
    pub closed spec fn idx(self) -> u32 {
        self.index
    }
}

impl<'a> ChunkAccessor<'a> {
    /// The index names an existing chunk.
    #[verifier::type_invariant]
    closed spec fn inv(self) -> bool {
        1 <= self.index <= self.sample_table.chunk_count
    }

    /// The sample table the chunk belongs to.
    pub closed spec fn table(self) -> StblBox {
        self.sample_table.stbl()
    }

    /// The chunk's 1-based index.
    pub closed spec fn idx(self) -> u32 {
        self.index
    }
}

impl<'a> SampleTableAccessor<'a> {
    /// Number of samples in the track.
    pub fn sample_count(&self) -> (r: u32)
        ensures
            r == sample_total(self.stbl()),
    {
        proof {
            use_type_invariant(self);
        }
        self.sample_count
    }

    /// Number of chunks in the track.
    pub fn chunk_count(&self) -> (r: u32)
        ensures
            r == chunk_total(self.stbl()),
    {
        proof {
            use_type_invariant(self);
        }
        self.chunk_count
    }

    /// The sample with 1-based index `sample_index`, if there is one.
    pub fn get_sample(&self, sample_index: u32) -> (r: Option<SampleAccessor<'_>>)
        ensures
            r is Some <==> 1 <= sample_index <= sample_total(self.stbl()),
            r matches Some(s) ==> s.table() == self.stbl() && s.idx() == sample_index,
    {
        proof {
            use_type_invariant(self);
        }
        if 1 <= sample_index && sample_index <= self.sample_count {
            Some(SampleAccessor { sample_table: self, index: sample_index })
        } else {
            None
        }
    }

    /// Looks a sample up by time: bisection over the samples, which stops at
    /// the first probed sample whose span `[timestamp, timestamp + duration)`
    /// holds `timestamp` or which starts exactly at `timestamp` (so a sample
    /// of zero duration starting there can be the answer). Where a sample's
    /// span holds `timestamp` strictly after its start, that sample is the
    /// answer; `None` when no sample answers.
    pub fn get_sample_by_timestamp(&self, timestamp: u64) -> (r: Option<SampleAccessor<'_>>)
        ensures
            r matches Some(s) ==> s.table() == self.stbl() && timestamp_bisect(
                self.stbl(),
                timestamp as nat,
                0,
                sample_total(self.stbl()) as int,
            ) == Some(s.idx() as int),
            r is None ==> timestamp_bisect(
                self.stbl(),
                timestamp as nat,
                0,
                sample_total(self.stbl()) as int,
            ) is None,
            r matches Some(s) ==> 1 <= s.idx() <= sample_total(self.stbl()) && sample_answers(
                self.stbl(),
                s.idx() as int,
                timestamp as nat,
            ),
            r is None <==> forall|i: int|
                1 <= i <= sample_total(self.stbl()) ==> !#[trigger] sample_answers(
                    self.stbl(),
                    i,
                    timestamp as nat,
                ),
            forall|i: int|
                1 <= i <= sample_total(self.stbl()) && sample_timestamp(self.stbl(), i) < timestamp
                    < sample_timestamp(self.stbl(), i) + #[trigger] sample_duration(self.stbl(), i)
                    ==> (r matches Some(s) && s.idx() == i),
    {
        proof {
            use_type_invariant(self);
        }
        let ghost b = self.stbl();
        let ghost t = timestamp as nat;
        let n = self.sample_count;
        proof {
            lemma_bisect_answers(b, t, 0, n as int);
            assert forall|i: int|
                1 <= i <= n && sample_timestamp(b, i) < timestamp < sample_timestamp(b, i)
                    + #[trigger] sample_duration(b, i) implies timestamp_bisect(b, t, 0, n as int)
                == Some(i) by {
                lemma_interior_sample_unique(b, t, i);
            }
        }
        let mut low: u32 = 0;
        let mut high: u32 = n;
        while high > low
            invariant
                b == self.stbl(),
                t == timestamp as nat,
                n == sample_total(b),
                n == self.sample_count,
                low <= high <= n,
                forall|k: int|
                    1 <= k <= n && sample_timestamp(b, k) < timestamp < sample_timestamp(b, k)
                        + #[trigger] sample_duration(b, k) ==> timestamp_bisect(b, t, 0, n as int)
                        == Some(k),
                timestamp_bisect(b, t, low as int, high as int) == timestamp_bisect(
                    b,
                    t,
                    0,
                    n as int,
                ),
            decreases high - low,
        {
            let i = (high - low) / 2 + low;
            assert(low <= i < high);
            let start = self.timestamp_of(i + 1);
            if timestamp < start {
                high = i;
            } else if timestamp == start {
                assert(timestamp_bisect(b, t, low as int, high as int) == Some(i + 1));
                return Some(SampleAccessor { sample_table: self, index: i + 1 });
            } else {
                let duration = self.duration_of(i + 1);
                if timestamp - start < duration as u64 {
                    assert(timestamp_bisect(b, t, low as int, high as int) == Some(i + 1));
                    return Some(SampleAccessor { sample_table: self, index: i + 1 });
                }
                low = i + 1;
            }
        }
        None
    }

    /// The chunk with 1-based index `chunk_index`, if there is one.
    pub fn get_chunk(&self, chunk_index: u32) -> (r: Option<ChunkAccessor<'_>>)
        ensures
            r is Some <==> 1 <= chunk_index <= chunk_total(self.stbl()),
            r matches Some(c) ==> c.table() == self.stbl() && c.idx() == chunk_index,
    {
        proof {
            use_type_invariant(self);
        }
        if 1 <= chunk_index && chunk_index <= self.chunk_count {
            Some(ChunkAccessor { sample_table: self, index: chunk_index })
        } else {
            None
        }
    }

    /// All the samples of the track, in order.
    pub fn samples(&self) -> (r: Vec<SampleAccessor<'_>>)
        ensures
            r@.len() == sample_total(self.stbl()),
            forall|k: int|
                0 <= k < r@.len() ==> (#[trigger] r@[k]).table() == self.stbl() && r@[k].idx() == k
                    + 1,
    {
        proof {
            use_type_invariant(self);
        }
        let mut r: Vec<SampleAccessor<'_>> = Vec::new();
        let mut i: u32 = 0;
        while i < self.sample_count
            invariant
                i <= self.sample_count,
                self.sample_count == sample_total(self.stbl()),
                r@.len() == i,
                forall|k: int|
                    0 <= k < i ==> (#[trigger] r@[k]).table() == self.stbl() && r@[k].idx() == k + 1,
            decreases self.sample_count - i,
        {
            r.push(SampleAccessor { sample_table: self, index: i + 1 });
            i += 1;
        }
        r
    }

    /// All the chunks of the track, in order.
    pub fn chunks(&self) -> (r: Vec<ChunkAccessor<'_>>)
        ensures
            r@.len() == chunk_total(self.stbl()),
            forall|k: int|
                0 <= k < r@.len() ==> (#[trigger] r@[k]).table() == self.stbl() && r@[k].idx() == k
                    + 1,
    {
        proof {
            use_type_invariant(self);
        }
        let mut r: Vec<ChunkAccessor<'_>> = Vec::new();
        let mut i: u32 = 0;
        while i < self.chunk_count
            invariant
                i <= self.chunk_count,
                self.chunk_count == chunk_total(self.stbl()),
                r@.len() == i,
                forall|k: int|
                    0 <= k < i ==> (#[trigger] r@[k]).table() == self.stbl() && r@[k].idx() == k + 1,
            decreases self.chunk_count - i,
        {
            r.push(ChunkAccessor { sample_table: self, index: i + 1 });
            i += 1;
        }
        r
    }

    /// The sample table this accessor reads.
    pub fn stbl_box(&self) -> (r: &StblBox)
        ensures
            *r == self.stbl(),
    {
        self.stbl_box
    }
}


/// 0-based index of the sample entry that chunk `j` refers to.
pub open spec fn chunk_sample_entry_index(b: StblBox, j: int) -> int {
    b.stsc_box.entries@[stsc_index_of_chunk(b, j)].sample_description_index - 1
}

impl<'a> SampleAccessor<'a> {
    /// The sample's 1-based index.
    pub fn index(&self) -> (r: u32)
        ensures
            r == self.idx(),
            1 <= r <= sample_total(self.table()),
    {
        proof {
            use_type_invariant(self);
            use_type_invariant(self.sample_table);
        }
        self.index
    }

    /// The sample's duration.
    pub fn duration(&self) -> (r: u32)
        ensures
            r == sample_duration(self.table(), self.idx() as int),
    {
        proof {
            use_type_invariant(self);
            use_type_invariant(self.sample_table);
        }
        self.sample_table.duration_of(self.index)
    }

    /// The sample's timestamp: the total duration of the samples before it.
    pub fn timestamp(&self) -> (r: u64)
        ensures
            r == sample_timestamp(self.table(), self.idx() as int),
    {
        proof {
            use_type_invariant(self);
            use_type_invariant(self.sample_table);
        }
        self.sample_table.timestamp_of(self.index)
    }

    /// Size of the sample's data in bytes.
    pub fn data_size(&self) -> (r: u32)
        ensures
            r == sample_size_of(self.table(), self.idx() as int),
    {
        proof {
            use_type_invariant(self);
            use_type_invariant(self.sample_table);
        }
        match &self.sample_table.stbl_box.stsz_box {
            StszBox::Fixed { sample_size, .. } => *sample_size,
            StszBox::Variable { entry_sizes } => entry_sizes[(self.index - 1) as usize],
        }
    }

    /// File offset of the sample's data.
    pub fn data_offset(&self) -> (r: u64)
        ensures
            r == sample_data_offset_of(self.table(), self.idx() as int),
    {
        proof {
            use_type_invariant(self);
            use_type_invariant(self.sample_table);
        }
        let t = self.sample_table;
        let i = self.index;
        match &t.stbl_box.stsz_box {
            StszBox::Fixed { sample_size, .. } => {
                let c = t.chunk_of(i);
                let base = chunk_offset_at(t.stbl_box, (c - 1) as usize);
                let first = t.sample_index_offsets[(c - 1) as usize];
                proof {
                    let b = t.stbl();
                    assert(t.sample_index_offsets@[c - 1] == chunk_first_sample(b, c as int));
                    lemma_size_sum_fixed(b, first as int, i as int, *sample_size);
                    lemma_size_sum_monotone(
                        b,
                        first as int,
                        i as int,
                        first + samples_in_chunk(b, c as int),
                    );
                    assert(chunk_end(b, c as int) <= u64::MAX);
                }
                base + (i as u64 - first) * (*sample_size as u64)
            },
            StszBox::Variable { .. } => t.sample_data_offsets[(i - 1) as usize],
        }
    }

    /// Whether the sample is a sync sample.
    pub fn is_sync_sample(&self) -> (r: bool)
        ensures
            r == sample_is_sync(self.table(), self.idx() as int),
    {
        self.sample_table.is_sync_of(self.index)
    }

    /// The sync sample that decoding this sample starts from: the sample
    /// itself when it is a sync sample, `None` when no sync sample precedes it.
    pub fn sync_sample(&self) -> (r: Option<Self>)
        ensures
            r is Some <==> sync_sample_of(self.table(), self.idx() as int) is Some,
            r matches Some(s) ==> s.table() == self.table() && Some(s.idx()) == sync_sample_of(
                self.table(),
                self.idx() as int,
            ),
    {
        proof {
            use_type_invariant(self);
            use_type_invariant(self.sample_table);
        }
        match self.sample_table.sync_of(self.index) {
            Some(x) => Some(SampleAccessor { sample_table: self.sample_table, index: x }),
            None => None,
        }
    }

    /// The sample's composition time offset, when the table has a `ctts`.
    pub fn composition_time_offset(&self) -> (r: Option<i64>)
        ensures
            r == sample_composition_offset(self.table(), self.idx() as int),
    {
        proof {
            use_type_invariant(self);
            use_type_invariant(self.sample_table);
        }
        self.sample_table.composition_offset_of(self.index)
    }

    /// The chunk the sample belongs to.
    pub fn chunk(&self) -> (r: ChunkAccessor<'a>)
        ensures
            r.table() == self.table(),
            r.idx() == chunk_of_sample(self.table(), self.idx() as int),
            chunk_first_sample(self.table(), r.idx() as int) <= self.idx() < chunk_first_sample(
                self.table(),
                r.idx() as int,
            ) + samples_in_chunk(self.table(), r.idx() as int),
    {
        proof {
            use_type_invariant(self);
            use_type_invariant(self.sample_table);
        }
        let c = self.sample_table.chunk_of(self.index);
        ChunkAccessor { sample_table: self.sample_table, index: c }
    }
}

impl<'a> ChunkAccessor<'a> {
    /// The chunk's 1-based index.
    pub fn index(&self) -> (r: u32)
        ensures
            r == self.idx(),
            1 <= r <= chunk_total(self.table()),
    {
        proof {
            use_type_invariant(self);
            use_type_invariant(self.sample_table);
        }
        self.index
    }

    /// File offset of the chunk.
    pub fn offset(&self) -> (r: u64)
        ensures
            r == chunk_offsets_of(self.table())[self.idx() - 1],
    {
        proof {
            use_type_invariant(self);
            use_type_invariant(self.sample_table);
        }
        chunk_offset_at(self.sample_table.stbl_box, (self.index - 1) as usize)
    }

    /// 0-based index of the sample entry the chunk refers to.
    pub fn sample_entry_index(&self) -> (r: usize)
        ensures
            r == chunk_sample_entry_index(self.table(), self.idx() as int),
            r < self.table().stsd_box.entries@.len(),
    {
        proof {
            use_type_invariant(self);
            use_type_invariant(self.sample_table);
        }
        let k = self.sample_table.stsc_index_of(self.index);
        proof {
            let b = self.table();
            assert(b.stsc_box.entries@[k as int].first_chunk >= 1);
            assert(b.stsc_box.entries@[k as int].sample_description_index <= b.stsd_box.entries@.len());
        }
        (self.sample_table.stbl_box.stsc_box.entries[k].sample_description_index - 1) as usize
    }

    /// The sample entry the chunk refers to.
    pub fn sample_entry(&self) -> (r: &'a SampleEntry)
        ensures
            *r == self.table().stsd_box.entries@[chunk_sample_entry_index(
                self.table(),
                self.idx() as int,
            )],
    {
        let i = self.sample_entry_index();
        let t: &'a SampleTableAccessor<'a> = self.sample_table;
        &t.stbl_box.stsd_box.entries[i]
    }

    /// Number of samples in the chunk.
    pub fn sample_count(&self) -> (r: u32)
        ensures
            r == samples_in_chunk(self.table(), self.idx() as int),
    {
        proof {
            use_type_invariant(self);
            use_type_invariant(self.sample_table);
        }
        let k = self.sample_table.stsc_index_of(self.index);
        self.sample_table.stbl_box.stsc_box.entries[k].sample_per_chunk
    }

    /// The samples of the chunk, in order.
    pub fn samples(&self) -> (r: Vec<SampleAccessor<'a>>)
        ensures
            r@.len() == samples_in_chunk(self.table(), self.idx() as int),
            forall|k: int|
                0 <= k < r@.len() ==> (#[trigger] r@[k]).table() == self.table() && r@[k].idx()
                    == chunk_first_sample(self.table(), self.idx() as int) + k,
    {
        proof {
            use_type_invariant(self);
            use_type_invariant(self.sample_table);
        }
        let t: &'a SampleTableAccessor<'a> = self.sample_table;
        let count = self.sample_count();
        let first = t.sample_index_offsets[(self.index - 1) as usize];
        proof {
            let b = t.stbl();
            let j = self.index as int;
            assert(t.sample_index_offsets@[j - 1] == chunk_first_sample(b, j));
            lemma_chunk_first_sample_step(b, j);
            lemma_chunk_first_sample_monotone(b, j + 1, (chunk_total(b) + 1) as int);
            lemma_chunk_first_sample_monotone(b, 1, j);
        }
        let mut r: Vec<SampleAccessor<'a>> = Vec::new();
        let mut m: u32 = 0;
        while m < count
            invariant
                m <= count,
                count == samples_in_chunk(t.stbl(), self.idx() as int),
                first == chunk_first_sample(t.stbl(), self.idx() as int),
                first >= 1,
                first + count <= t.sample_count + 1,
                t.sample_count <= u32::MAX,
                t == self.sample_table,
                r@.len() == m,
                forall|k: int|
                    0 <= k < m ==> (#[trigger] r@[k]).table() == t.stbl() && r@[k].idx() == first
                        + k,
            decreases count - m,
        {
            r.push(SampleAccessor { sample_table: t, index: (first + m as u64) as u32 });
            m += 1;
        }
        r
    }
}


proof fn lemma_chunk_of_sample_upto_props(b: StblBox, i: int, n: int)
    ensures
        0 <= chunk_of_sample_upto(b, i, n) <= (if n < 0 { 0 } else { n }),
        chunk_of_sample_upto(b, i, n) >= 1 ==> chunk_first_sample(b, chunk_of_sample_upto(b, i, n))
            <= i,
        forall|m: int| chunk_of_sample_upto(b, i, n) < m <= n ==> #[trigger] chunk_first_sample(b, m)
            > i,
    decreases n,
{
    if n >= 1 && chunk_first_sample(b, n) > i {
        lemma_chunk_of_sample_upto_props(b, i, n - 1);
    }
}

/// Each sample's timestamp is the previous sample's timestamp plus its duration.
pub proof fn lemma_timestamp_step(b: StblBox, i: int)
    requires
        1 <= i < sample_total(b),
    ensures
        sample_timestamp(b, i + 1) == sample_timestamp(b, i) + sample_duration(b, i),
{
    lemma_run_expand_len(stts_runs(b.stts_box.entries@));
    lemma_seq_sum_take_step(sample_durations(b), i - 1);
}

/// Timestamps never decrease from one sample to a later one.
pub proof fn lemma_timestamp_monotone(b: StblBox, i: int, k: int)
    requires
        1 <= i <= k <= sample_total(b),
    ensures
        sample_timestamp(b, i) <= sample_timestamp(b, k),
{
    lemma_run_expand_len(stts_runs(b.stts_box.entries@));
    lemma_seq_sum_take_monotone(sample_durations(b), i - 1, k - 1);
}

/// In a consistent sample table every sample lies in exactly one chunk,
/// the one `chunk_of_sample` names, and chunks list their samples in order.
pub proof fn lemma_chunks_partition_samples(b: StblBox, i: int)
    requires
        sample_table_consistent(b),
        1 <= i <= sample_total(b),
    ensures
        1 <= chunk_of_sample(b, i) <= chunk_total(b),
        chunk_first_sample(b, chunk_of_sample(b, i)) <= i < chunk_first_sample(
            b,
            chunk_of_sample(b, i),
        ) + samples_in_chunk(b, chunk_of_sample(b, i)),
        forall|j: int|
            1 <= j <= chunk_total(b) && #[trigger] chunk_first_sample(b, j) <= i
                < chunk_first_sample(b, j) + samples_in_chunk(b, j) ==> j == chunk_of_sample(b, i),
{
    let n = chunk_total(b) as int;
    lemma_chunk_of_sample_upto_props(b, i, n);
    let c = chunk_of_sample(b, i);
    if n == 0 {
        assert(chunk_first_sample(b, 1) == 1);
        assert(false);
    }
    if c == 0 {
        assert(chunk_first_sample(b, 1) > i);
        assert(false);
    }
    lemma_chunk_first_sample_step(b, c);
    if c < n {
        assert(chunk_first_sample(b, c + 1) > i);
    }
    assert forall|j: int|
        1 <= j <= chunk_total(b) && #[trigger] chunk_first_sample(b, j) <= i
            < chunk_first_sample(b, j) + samples_in_chunk(b, j) implies j == chunk_of_sample(b, i) by {
        lemma_chunk_of_sample(b, i, j);
    }
}

/// The data of a chunk's first sample starts at the chunk's offset, and each
/// further sample of the chunk starts where the previous one ends.
pub proof fn lemma_data_offset_step(b: StblBox, i: int)
    requires
        sample_table_consistent(b),
        1 <= i <= sample_total(b),
    ensures
        i == chunk_first_sample(b, chunk_of_sample(b, i)) ==> sample_data_offset_of(b, i)
            == chunk_offsets_of(b)[chunk_of_sample(b, i) - 1],
        i < sample_total(b) && chunk_of_sample(b, i + 1) == chunk_of_sample(b, i)
            ==> sample_data_offset_of(b, i + 1) == sample_data_offset_of(b, i) + sample_size_of(
            b,
            i,
        ),
{
    lemma_chunks_partition_samples(b, i);
}

/// The sync sample of a sample is a sync sample at or before it, and a
/// sync sample is its own sync sample.
pub proof fn lemma_sync_sample(b: StblBox, i: int)
    requires
        stbl_wf(b),
        1 <= i <= u32::MAX,
    ensures
        sync_sample_of(b, i) matches Some(x) ==> 1 <= x <= i && sample_is_sync(b, x as int),
        sample_is_sync(b, i) ==> sync_sample_of(b, i) == Some(i as u32),
{
    match b.stss_box {
        None => {},
        Some(s) => {
            let ns = s.sample_numbers@;
            lemma_max_le(ns, ns.len() as int, i);
            let m = max_le(ns, ns.len() as int, i);
            if m != 0 {
                let k = choose|k: int| 0 <= k < ns.len() && ns[k] == m;
                assert(ns[k] >= 1);
                assert(ns[k] <= i);
            }
            if sample_is_sync(b, i) {
                let k = choose|k: int| 0 <= k < ns.len() && #[trigger] ns[k] == i;
                assert(ns[k] <= m);
            }
        },
    }
}

/// `bv` is `bf` with its fixed-size `stsz` written out as the equal
/// per-sample size list; every other child is the same.
pub open spec fn fixed_stsz_as_variable(bf: StblBox, bv: StblBox) -> bool {
    &&& match bf.stsz_box {
        StszBox::Fixed { sample_size, sample_count } => match bv.stsz_box {
            StszBox::Variable { entry_sizes } => entry_sizes@ == Seq::new(
                sample_count as nat,
                |k: int| sample_size,
            ),
            StszBox::Fixed { .. } => false,
        },
        StszBox::Variable { .. } => false,
    }
    &&& bv.stsd_box == bf.stsd_box
    &&& bv.stts_box == bf.stts_box
    &&& bv.ctts_box == bf.ctts_box
    &&& bv.cslg_box == bf.cslg_box
    &&& bv.stsc_box == bf.stsc_box
    &&& bv.stco_or_co64_box == bf.stco_or_co64_box
    &&& bv.stss_box == bf.stss_box
    &&& bv.sdtp_box == bf.sdtp_box
    &&& bv.unknown_boxes == bf.unknown_boxes
}

proof fn lemma_chunk_layout_same(b1: StblBox, b2: StblBox, j: int)
    requires
        b1.stsc_box == b2.stsc_box,
    ensures
        chunk_first_sample(b1, j) == chunk_first_sample(b2, j),
        samples_in_chunk(b1, j) == samples_in_chunk(b2, j),
    decreases j,
{
    assert(stsc_keys(b1) =~= stsc_keys(b2));
    if j > 1 {
        lemma_chunk_layout_same(b1, b2, j - 1);
    }
}

proof fn lemma_chunk_of_sample_same(b1: StblBox, b2: StblBox, i: int, j: int)
    requires
        b1.stsc_box == b2.stsc_box,
    ensures
        chunk_of_sample_upto(b1, i, j) == chunk_of_sample_upto(b2, i, j),
    decreases j,
{
    if j >= 1 {
        lemma_chunk_layout_same(b1, b2, j);
        lemma_chunk_of_sample_same(b1, b2, i, j - 1);
    }
}

proof fn lemma_size_sum_same(bf: StblBox, bv: StblBox, a: int, c: int)
    requires
        fixed_stsz_as_variable(bf, bv),
        1 <= a,
        c <= stsz_count(bf) + 1,
    ensures
        size_sum(bf, a, c) == size_sum(bv, a, c),
    decreases c - a,
{
    if c > a {
        lemma_size_sum_same(bf, bv, a, c - 1);
        assert(sample_size_of(bf, c - 1) == sample_size_of(bv, c - 1));
    }
}

proof fn lemma_stsz_pair_layout(bf: StblBox, bv: StblBox)
    requires
        fixed_stsz_as_variable(bf, bv),
    ensures
        stsz_count(bf) == stsz_count(bv),
        chunk_total(bf) == chunk_total(bv),
        chunk_offsets_of(bf) == chunk_offsets_of(bv),
        sample_total(bf) == sample_total(bv),
        stsz_ok(bf) == stsz_ok(bv),
        stts_ok(bf) == stts_ok(bv),
        ctts_ok(bf) == ctts_ok(bv),
        ctts_total_ok(bf) == ctts_total_ok(bv),
        ctts_total(bf) == ctts_total(bv),
        stsc_keys(bf) == stsc_keys(bv),
        stsc_consistent(bf) == stsc_consistent(bv),
        chunk_samples_ok(bf) == chunk_samples_ok(bv),
        stsc_reported_count(bf) == stsc_reported_count(bv),
        forall|j: int| #[trigger] chunk_first_sample(bf, j) == chunk_first_sample(bv, j),
        forall|j: int| #[trigger] samples_in_chunk(bf, j) == samples_in_chunk(bv, j),
        forall|i: int| #[trigger] chunk_of_sample(bf, i) == chunk_of_sample(bv, i),
        forall|e: SampleTableAccessorError| #[trigger] stsc_error(bf, e) == stsc_error(bv, e),
{
    let total = chunk_total(bf);
    assert(chunk_offsets_of(bf) =~= chunk_offsets_of(bv));
    assert(stsc_keys(bf) =~= stsc_keys(bv));
    assert forall|j: int| #[trigger] chunk_first_sample(bf, j) == chunk_first_sample(bv, j) by {
        lemma_chunk_layout_same(bf, bv, j);
    }
    assert forall|j: int| #[trigger] samples_in_chunk(bf, j) == samples_in_chunk(bv, j) by {
        lemma_chunk_layout_same(bf, bv, j);
    }
    assert forall|i: int| #[trigger] chunk_of_sample(bf, i) == chunk_of_sample(bv, i) by {
        lemma_chunk_of_sample_same(bf, bv, i, total as int);
    }
    assert(chunk_first_sample(bf, (total + 1) as int) == chunk_first_sample(bv, (total + 1) as int));
}

proof fn lemma_stsz_pair_chunk_end(bf: StblBox, bv: StblBox, j: int)
    requires
        fixed_stsz_as_variable(bf, bv),
        chunk_samples_ok(bf),
        stsz_ok(bf),
        1 <= j <= chunk_total(bf),
    ensures
        chunk_end(bf, j) == chunk_end(bv, j),
{
    let total = chunk_total(bf);
    lemma_stsz_pair_layout(bf, bv);
    lemma_chunk_first_sample_monotone(bf, 1, j);
    lemma_chunk_first_sample_step(bf, j);
    lemma_chunk_first_sample_monotone(bf, j + 1, (total + 1) as int);
    assert(chunk_first_sample(bf, j) == chunk_first_sample(bv, j));
    assert(samples_in_chunk(bf, j) == samples_in_chunk(bv, j));
    lemma_size_sum_same(
        bf,
        bv,
        chunk_first_sample(bf, j) as int,
        (chunk_first_sample(bf, j) + samples_in_chunk(bf, j)) as int,
    );
}

proof fn lemma_stsz_pair_sample(bf: StblBox, bv: StblBox, i: int)
    requires
        fixed_stsz_as_variable(bf, bv),
        1 <= i <= stsz_count(bf),
        1 <= chunk_of_sample(bf, i),
        chunk_first_sample(bf, chunk_of_sample(bf, i)) <= i,
    ensures
        sample_size_of(bf, i) == sample_size_of(bv, i),
        sample_data_offset_of(bf, i) == sample_data_offset_of(bv, i),
{
    lemma_stsz_pair_layout(bf, bv);
    let c = chunk_of_sample(bf, i);
    assert(chunk_of_sample(bv, i) == c);
    assert(chunk_first_sample(bv, c) == chunk_first_sample(bf, c));
    lemma_chunk_first_sample_monotone(bf, 1, c);
    lemma_size_sum_same(bf, bv, chunk_first_sample(bf, c) as int, i);
}

#[verifier::spinoff_prover]
proof fn lemma_stsz_pair_offsets(bf: StblBox, bv: StblBox)
    requires
        fixed_stsz_as_variable(bf, bv),
        chunk_samples_ok(bf),
        stsz_ok(bf),
    ensures
        offsets_ok(bf) == offsets_ok(bv),
        forall|i: int, start: u64, size: u32|
            #[trigger] offset_overflow_at(bf, i, start, size) == offset_overflow_at(bv, i, start, size),
{
    lemma_stsz_pair_layout(bf, bv);
    let total = chunk_total(bf);
    assert forall|j: int| 1 <= j <= total implies #[trigger] chunk_end(bf, j) == chunk_end(bv, j) by {
        lemma_stsz_pair_chunk_end(bf, bv, j);
    }
    if offsets_ok(bf) {
        assert forall|j: int| 1 <= j <= chunk_total(bv) implies #[trigger] chunk_end(bv, j) <= u64::MAX by {
            assert(chunk_end(bf, j) == chunk_end(bv, j));
        }
    }
    if offsets_ok(bv) {
        assert forall|j: int| 1 <= j <= total implies #[trigger] chunk_end(bf, j) <= u64::MAX by {
            assert(chunk_end(bv, j) <= u64::MAX);
        }
    }
    assert forall|i: int, start: u64, size: u32|
        #[trigger] offset_overflow_at(bf, i, start, size) == offset_overflow_at(bv, i, start, size) by {
        let c = chunk_of_sample(bf, i);
        assert(chunk_of_sample(bv, i) == c);
        assert(chunk_first_sample(bv, c) == chunk_first_sample(bf, c));
        assert(samples_in_chunk(bv, c) == samples_in_chunk(bf, c));
        if 1 <= i <= sample_total(bf) && 1 <= c <= total && chunk_first_sample(bf, c) <= i {
            lemma_stsz_pair_sample(bf, bv, i);
            if forall|j: int| 1 <= j < c ==> #[trigger] chunk_end(bf, j) <= u64::MAX {
                assert forall|j: int| 1 <= j < c implies #[trigger] chunk_end(bv, j) <= u64::MAX by {
                    assert(chunk_end(bf, j) == chunk_end(bv, j));
                }
            }
            if forall|j: int| 1 <= j < c ==> #[trigger] chunk_end(bv, j) <= u64::MAX {
                assert forall|j: int| 1 <= j < c implies #[trigger] chunk_end(bf, j) <= u64::MAX by {
                    assert(chunk_end(bv, j) <= u64::MAX);
                }
            }
        }
    }
}

/// A fixed-size `stsz` and the equal per-sample size list describe the same
/// sample table: [`SampleTableAccessor::new`] accepts both or neither, with
/// the same error, and where it accepts them every sample has the same size
/// and the same data offset.
#[verifier::spinoff_prover]
pub proof fn lemma_fixed_stsz_same_as_variable(bf: StblBox, bv: StblBox)
    requires
        stbl_wf(bf),
        fixed_stsz_as_variable(bf, bv),
    ensures
        stbl_wf(bv),
        sample_total(bf) == sample_total(bv),
        sample_table_consistent(bf) <==> sample_table_consistent(bv),
        forall|e: SampleTableAccessorError| accessor_error(bf, e) <==> #[trigger] accessor_error(bv, e),
        sample_table_consistent(bf) ==> forall|i: int|
            1 <= i <= sample_total(bf) ==> #[trigger] sample_size_of(bf, i) == sample_size_of(bv, i)
                && sample_data_offset_of(bf, i) == sample_data_offset_of(bv, i),
{
    lemma_stsz_pair_layout(bf, bv);
    if chunk_samples_ok(bf) && stsz_ok(bf) {
        lemma_stsz_pair_offsets(bf, bv);
    }
    assert forall|e: SampleTableAccessorError| accessor_error(bf, e) <==> #[trigger] accessor_error(bv, e) by {
        match e {
            SampleTableAccessorError::SampleDataOffsetOverflow {
                sample_index,
                accumulated_offset,
                sample_data_size,
            } => {},
            _ => {
                assert(stsc_error(bf, e) == stsc_error(bv, e));
            },
        }
    }
    if sample_table_consistent(bf) {
        assert forall|i: int| 1 <= i <= sample_total(bf) implies #[trigger] sample_size_of(bf, i)
            == sample_size_of(bv, i) && sample_data_offset_of(bf, i) == sample_data_offset_of(bv, i) by {
            lemma_chunks_partition_samples(bf, i);
            lemma_stsz_pair_sample(bf, bv, i);
        }
    }
}

} // verus!
