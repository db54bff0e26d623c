//! The `moov` box and the boxes below it.
use vstd::prelude::*;

use crate::boxes::{BoxType, Either, FixedPointNumber, SampleEntry, UnknownBox};
use crate::codec::{
    be_list_bytes, counted_list_at, counted_list_payload, lemma_be_value_bound,
    lemma_counted_list_roundtrip, put_u32_list, put_u64_list, read_counted_list, to_u32_list,
    u32_vals, u64_vals,
    box_bytes, box_header_spec, box_type_bytes, concat_records, decode_box_header,
    lemma_be_roundtrip, lemma_be_value_prefix, lemma_be_value_suffix, lemma_be_value_within,
    lemma_box_bytes_header, lemma_concat_records, lemma_concat_records_push, lemma_pow256_values,
    put_be, put_box, read_be,
    lemma_box_header_bounds, lemma_box_header_prefix, prepend_boxes, split_boxes, take_boxes,
    unknown_matches,
};
use crate::error::{Error, ErrorKind};
use crate::nal::{be_bytes, be_value};

verus! {

/// [ISO/IEC 14496-12] MovieBox
#[derive(Debug, Clone, PartialEq, Eq, Hash)]
pub struct MoovBox {
    /// Movie header.
    pub mvhd_box: MvhdBox,
    /// One `trak` per track.
    pub trak_boxes: Vec<TrakBox>,
    /// Fragment defaults (fragmented MP4 only).
    pub mvex_box: Option<MvexBox>,
    /// Other children.
    pub unknown_boxes: Vec<UnknownBox>,
}

/// [ISO/IEC 14496-12] MovieHeaderBox
#[derive(Debug, Clone, PartialEq, Eq, Hash)]
pub struct MvhdBox {
    /// Creation time (seconds since 1904-01-01).
    pub creation_time: u64,
    /// Modification time (seconds since 1904-01-01).
    pub modification_time: u64,
    /// Movie time units per second (never 0).
    pub timescale: u32,
    /// Duration in `timescale` units.
    pub duration: u64,
    /// Preferred rate (16.16).
    pub rate: FixedPointNumber<i16, u16>,
    /// Preferred volume (8.8).
    pub volume: FixedPointNumber<i8, u8>,
    /// Transformation matrix.
    pub matrix: [i32; 9],
    /// Next track id to use.
    pub next_track_id: u32,
}

/// [ISO/IEC 14496-12] TrackBox
#[derive(Debug, Clone, PartialEq, Eq, Hash)]
pub struct TrakBox {
    /// Track header.
    pub tkhd_box: TkhdBox,
    /// Edit list container.
    pub edts_box: Option<EdtsBox>,
    /// Media box.
    pub mdia_box: MdiaBox,
    /// Other children.
    pub unknown_boxes: Vec<UnknownBox>,
}

/// [ISO/IEC 14496-12] TrackHeaderBox
#[derive(Debug, Clone, PartialEq, Eq, Hash)]
pub struct TkhdBox {
    /// `track_enabled` flag.
    pub flag_track_enabled: bool,
    /// `track_in_movie` flag.
    pub flag_track_in_movie: bool,
    /// `track_in_preview` flag.
    pub flag_track_in_preview: bool,
    /// `track_size_is_aspect_ratio` flag.
    pub flag_track_size_is_aspect_ratio: bool,
    /// Creation time (seconds since 1904-01-01).
    pub creation_time: u64,
    /// Modification time (seconds since 1904-01-01).
    pub modification_time: u64,
    /// Track id.
    pub track_id: u32,
    /// Duration in movie timescale units.
    pub duration: u64,
    /// Layer.
    pub layer: i16,
    /// Alternate group.
    pub alternate_group: i16,
    /// Volume (8.8).
    pub volume: FixedPointNumber<i8, u8>,
    /// Transformation matrix.
    pub matrix: [i32; 9],
    /// Width (16.16).
    pub width: FixedPointNumber<i16, u16>,
    /// Height (16.16).
    pub height: FixedPointNumber<i16, u16>,
}

/// [ISO/IEC 14496-12] EditBox
#[derive(Debug, Clone, PartialEq, Eq, Hash)]
pub struct EdtsBox {
    /// Edit list.
    pub elst_box: Option<ElstBox>,
    /// Other children.
    pub unknown_boxes: Vec<UnknownBox>,
}

/// Entry of [`ElstBox`].
#[derive(Debug, Clone, Copy, PartialEq, Eq, Hash)]
pub struct ElstEntry {
    /// Duration of the edit in movie timescale units.
    pub edit_duration: u64,
    /// Media time where the edit starts (-1 for an empty edit).
    pub media_time: i64,
    /// Media rate (16.16, signed).
    pub media_rate: FixedPointNumber<i16, i16>,
}

/// [ISO/IEC 14496-12] EditListBox
#[derive(Debug, Clone, PartialEq, Eq, Hash)]
pub struct ElstBox {
    /// Edit entries.
    pub entries: Vec<ElstEntry>,
}

/// [ISO/IEC 14496-12] MediaBox
#[derive(Debug, Clone, PartialEq, Eq, Hash)]
pub struct MdiaBox {
    /// Media header.
    pub mdhd_box: MdhdBox,
    /// Handler reference.
    pub hdlr_box: HdlrBox,
    /// Media information.
    pub minf_box: MinfBox,
    /// Other children.
    pub unknown_boxes: Vec<UnknownBox>,
}

/// [ISO/IEC 14496-12] MediaHeaderBox
#[derive(Debug, Clone, PartialEq, Eq, Hash)]
pub struct MdhdBox {
    /// Creation time (seconds since 1904-01-01).
    pub creation_time: u64,
    /// Modification time (seconds since 1904-01-01).
    pub modification_time: u64,
    /// Media time units per second (never 0).
    pub timescale: u32,
    /// Duration in `timescale` units.
    pub duration: u64,
    /// ISO-639-2/T language code, each byte in `0x60..=0x7f`.
    pub language: [u8; 3],
}

/// [ISO/IEC 14496-12] HandlerBox
#[derive(Debug, Clone, PartialEq, Eq, Hash)]
pub struct HdlrBox {
    /// Handler type (`vide`, `soun`, ...).
    pub handler_type: [u8; 4],
    /// Name bytes, kept as found.
    pub name: Vec<u8>,
}

/// [ISO/IEC 14496-12] MediaInformationBox
#[derive(Debug, Clone, PartialEq, Eq, Hash)]
pub struct MinfBox {
    /// Media type specific header.
    pub media_header: Option<MediaHeader>,
    /// Data information.
    pub dinf_box: DinfBox,
    /// Sample table.
    pub stbl_box: StblBox,
    /// Other children.
    pub unknown_boxes: Vec<UnknownBox>,
}

/// Media type specific header of [`MinfBox`].
#[derive(Debug, Clone, PartialEq, Eq, Hash)]
pub enum MediaHeader {
    /// Sound.
    Smhd(SmhdBox),
    /// Video.
    Vmhd(VmhdBox),
    /// Subtitles.
    Sthd(SthdBox),
    /// Other.
    Nmhd(NmhdBox),
}

/// [ISO/IEC 14496-12] SoundMediaHeaderBox
#[derive(Debug, Default, Clone, Copy, PartialEq, Eq, Hash)]
pub struct SmhdBox {
    /// Stereo balance (8.8).
    pub balance: FixedPointNumber<u8, u8>,
}

/// [ISO/IEC 14496-12] VideoMediaHeaderBox
#[derive(Debug, Default, Clone, Copy, PartialEq, Eq, Hash)]
pub struct VmhdBox {
    /// Composition mode.
    pub graphicsmode: u16,
    /// Composition colour.
    pub opcolor: [u16; 3],
}

/// [ISO/IEC 14496-12] SubtitleMediaHeaderBox
#[derive(Debug, Default, Clone, Copy, PartialEq, Eq, Hash)]
pub struct SthdBox;

/// [ISO/IEC 14496-12] NullMediaHeaderBox
#[derive(Debug, Default, Clone, Copy, PartialEq, Eq, Hash)]
pub struct NmhdBox;

/// [ISO/IEC 14496-12] DataInformationBox
#[derive(Debug, Clone, PartialEq, Eq, Hash)]
pub struct DinfBox {
    /// Data reference.
    pub dref_box: DrefBox,
    /// Other children.
    pub unknown_boxes: Vec<UnknownBox>,
}

/// [ISO/IEC 14496-12] DataReferenceBox
#[derive(Debug, Clone, PartialEq, Eq, Hash)]
pub struct DrefBox {
    /// `url ` entry.
    pub url_box: Option<UrlBox>,
    /// Other entries.
    pub unknown_boxes: Vec<UnknownBox>,
}

/// [ISO/IEC 14496-12] DataEntryUrlBox
#[derive(Debug, Clone, PartialEq, Eq, Hash)]
pub struct UrlBox {
    /// Location (UTF-8 without the terminating NUL); `None` means "this file".
    pub location: Option<Vec<u8>>,
}

/// [ISO/IEC 14496-12] SampleTableBox
#[derive(Debug, Clone, PartialEq, Eq, Hash)]
pub struct StblBox {
    /// Sample descriptions.
    pub stsd_box: StsdBox,
    /// Decoding time to sample.
    pub stts_box: SttsBox,
    /// Composition time offsets.
    pub ctts_box: Option<CttsBox>,
    /// Composition to decode shift.
    pub cslg_box: Option<CslgBox>,
    /// Sample to chunk.
    pub stsc_box: StscBox,
    /// Sample sizes.
    pub stsz_box: StszBox,
    /// Chunk offsets (32 or 64 bit).
    pub stco_or_co64_box: Either<StcoBox, Co64Box>,
    /// Sync samples.
    pub stss_box: Option<StssBox>,
    /// Sample dependency flags.
    pub sdtp_box: Option<SdtpBox>,
    /// Other children.
    pub unknown_boxes: Vec<UnknownBox>,
}

/// [ISO/IEC 14496-12] SampleDescriptionBox
#[derive(Debug, Clone, PartialEq, Eq, Hash)]
pub struct StsdBox {
    /// Sample entries.
    pub entries: Vec<SampleEntry>,
}

/// Entry of [`SttsBox`]: `sample_count` consecutive samples of duration `sample_delta`.
#[derive(Debug, Clone, Copy, PartialEq, Eq, Hash)]
pub struct SttsEntry {
    /// Number of consecutive samples.
    pub sample_count: u32,
    /// Duration of each (media timescale units).
    pub sample_delta: u32,
}

/// [ISO/IEC 14496-12] TimeToSampleBox
#[derive(Debug, Clone, PartialEq, Eq, Hash)]
pub struct SttsBox {
    /// Run-length encoded sample durations.
    pub entries: Vec<SttsEntry>,
}

/// Entry of [`CttsBox`].
#[derive(Debug, Clone, Copy, PartialEq, Eq, Hash)]
pub struct CttsEntry {
    /// Number of consecutive samples.
    pub sample_count: u32,
    /// Composition offset (media timescale units).
    pub sample_offset: i64,
}

/// [ISO/IEC 14496-12] CompositionOffsetBox
#[derive(Debug, Clone, PartialEq, Eq, Hash)]
pub struct CttsBox {
    /// FullBox version (0: non-negative 32 bit offsets, 1: signed 32 bit offsets).
    pub version: u8,
    /// Entries.
    pub entries: Vec<CttsEntry>,
}

/// [ISO/IEC 14496-12] CompositionToDecodeBox
#[derive(Debug, Clone, Copy, PartialEq, Eq, Hash)]
pub struct CslgBox {
    /// FullBox version (0: 32 bit fields, 1: 64 bit fields).
    pub version: u8,
    /// compositionToDTSShift
    pub composition_to_dts_shift: i64,
    /// leastDecodeToDisplayDelta
    pub least_decode_to_display_delta: i64,
    /// greatestDecodeToDisplayDelta
    pub greatest_decode_to_display_delta: i64,
    /// compositionStartTime
    pub composition_start_time: i64,
    /// compositionEndTime
    pub composition_end_time: i64,
}

/// Dependency flags of one sample in [`SdtpBox`].
#[derive(Debug, Clone, Copy, PartialEq, Eq, Hash)]
pub struct SdtpSampleFlags(pub u8);

/// [ISO/IEC 14496-12] SampleDependencyTypeBox
#[derive(Debug, Clone, PartialEq, Eq, Hash)]
pub struct SdtpBox {
    /// One flag byte per sample.
    pub entries: Vec<SdtpSampleFlags>,
}

/// Entry of [`StscBox`].
#[derive(Debug, Clone, Copy, PartialEq, Eq, Hash)]
pub struct StscEntry {
    /// First chunk (1-based, never 0) of the run of chunks this entry describes.
    pub first_chunk: u32,
    /// Samples in each of these chunks.
    pub sample_per_chunk: u32,
    /// 1-based sample entry index (never 0).
    pub sample_description_index: u32,
}

/// [ISO/IEC 14496-12] SampleToChunkBox
#[derive(Debug, Clone, PartialEq, Eq, Hash)]
pub struct StscBox {
    /// Entries.
    pub entries: Vec<StscEntry>,
}

/// [ISO/IEC 14496-12] SampleSizeBox
#[derive(Debug, Clone, PartialEq, Eq, Hash)]
pub enum StszBox {
    /// Every sample has the same size.
    Fixed {
        /// Size of each sample (never 0).
        sample_size: u32,
        /// Number of samples.
        sample_count: u32,
    },
    /// Sizes per sample.
    Variable {
        /// Size of each sample.
        entry_sizes: Vec<u32>,
    },
}

/// [ISO/IEC 14496-12] ChunkOffsetBox
#[derive(Debug, Clone, PartialEq, Eq, Hash)]
pub struct StcoBox {
    /// File offsets of the chunks.
    pub chunk_offsets: Vec<u32>,
}

/// [ISO/IEC 14496-12] ChunkLargeOffsetBox
#[derive(Debug, Clone, PartialEq, Eq, Hash)]
pub struct Co64Box {
    /// File offsets of the chunks.
    pub chunk_offsets: Vec<u64>,
}

/// [ISO/IEC 14496-12] SyncSampleBox
#[derive(Debug, Clone, PartialEq, Eq, Hash)]
pub struct StssBox {
    /// 1-based numbers of the sync samples (each never 0).
    pub sample_numbers: Vec<u32>,
}

/// [ISO/IEC 14496-14] ESDBox (the ES descriptor is kept as encoded bytes).
#[derive(Debug, Clone, PartialEq, Eq, Hash)]
pub struct EsdsBox {
    /// Encoded ES_Descriptor.
    pub es: Vec<u8>,
}

/// [ISO/IEC 14496-12] MovieExtendsBox
#[derive(Debug, Clone, PartialEq, Eq, Hash)]
pub struct MvexBox {
    /// Fragment duration.
    pub mehd_box: Option<MehdBox>,
    /// Per track defaults.
    pub trex_boxes: Vec<TrexBox>,
    /// Other children.
    pub unknown_boxes: Vec<UnknownBox>,
}

/// [ISO/IEC 14496-12] MovieExtendsHeaderBox
#[derive(Debug, Clone, Copy, PartialEq, Eq, Hash)]
pub struct MehdBox {
    /// Duration of the whole fragmented movie.
    pub fragment_duration: u64,
}

/// [ISO/IEC 14496-12] TrackExtendsBox
#[derive(Debug, Clone, Copy, PartialEq, Eq, Hash)]
pub struct TrexBox {
    /// Track id.
    pub track_id: u32,
    /// Default sample description index.
    pub default_sample_description_index: u32,
    /// Default sample duration.
    pub default_sample_duration: u32,
    /// Default sample size.
    pub default_sample_size: u32,
    /// Default sample flags (32 bit field).
    pub default_sample_flags: u32,
}

// ---------------------------------------------------------------------------
// stts run-length encoding
// ---------------------------------------------------------------------------

/// Adds one sample of duration `d` to run-length encoded entries: extends the
/// last run when it has the same delta, starts a new run otherwise; `None`
/// when the last run already counts `u32::MAX` samples.
pub open spec fn stts_push_spec(entries: Seq<SttsEntry>, d: u32) -> Option<Seq<SttsEntry>> {
    if entries.len() > 0 && entries.last().sample_delta == d {
        if entries.last().sample_count == u32::MAX {
            None
        } else {
            Some(
                entries.update(
                    entries.len() - 1,
                    SttsEntry {
                        sample_count: (entries.last().sample_count + 1) as u32,
                        sample_delta: d,
                    },
                ),
            )
        }
    } else {
        Some(entries.push(SttsEntry { sample_count: 1, sample_delta: d }))
    }
}

/// Run-length encoding of a sequence of sample durations.
pub open spec fn stts_from_spec(deltas: Seq<u32>) -> Option<Seq<SttsEntry>>
    decreases deltas.len(),
{
    if deltas.len() == 0 {
        Some(Seq::empty())
    } else {
        match stts_from_spec(deltas.drop_last()) {
            None => None,
            Some(e) => stts_push_spec(e, deltas.last()),
        }
    }
}

/// The sample durations that run-length encoded entries stand for.
pub open spec fn stts_expand(entries: Seq<SttsEntry>) -> Seq<u32>
    decreases entries.len(),
{
    if entries.len() == 0 {
        Seq::empty()
    } else {
        stts_expand(entries.drop_last()) + Seq::new(
            entries.last().sample_count as nat,
            |i: int| entries.last().sample_delta,
        )
    }
}

impl SttsBox {
    /// Run-length encodes the given sample durations; fails with
    /// [`ErrorKind::InvalidData`] when a run of equal durations exceeds `u32::MAX`.
    pub fn from_sample_deltas(sample_deltas: &[u32]) -> (r: Result<SttsBox, Error>)
        ensures
            r is Ok <==> stts_from_spec(sample_deltas@) is Some,
            r is Err <==> has_overlong_run(sample_deltas@),
            r matches Ok(b) ==> stts_from_spec(sample_deltas@) == Some(b.entries@),
            r matches Err(e) ==> e.kind == ErrorKind::InvalidData && e.reason
                == "stts sample_count overflow",
    {
        proof {
            lemma_stts_from_fails_on_overlong_run(sample_deltas@);
        }
        let mut entries: Vec<SttsEntry> = Vec::new();
        let mut i: usize = 0;
        while i < sample_deltas.len()
            invariant
                i <= sample_deltas@.len(),
                stts_from_spec(sample_deltas@.take(i as int)) == Some(entries@),
            decreases sample_deltas@.len() - i,
        {
            proof {
                assert(sample_deltas@.take(i + 1).drop_last() =~= sample_deltas@.take(i as int));
            }
            match SttsBox::push_sample_delta(&mut entries, sample_deltas[i]) {
                Ok(()) => {},
                Err(e) => {
                    proof {
                        let t = sample_deltas@.take(i + 1);
                        assert(stts_from_spec(t) is None);
                        lemma_stts_from_none_prefix(sample_deltas@, i + 1);
                        lemma_stts_from_fails_on_overlong_run(sample_deltas@);
                    }
                    return Err(e);
                },
            }
            i += 1;
        }
        proof {
            assert(sample_deltas@.take(i as int) =~= sample_deltas@);
        }
        Ok(SttsBox { entries })
    }

    /// Adds one sample duration to run-length encoded entries (see
    /// [`stts_push_spec`]); on overflow the entries are left unchanged.
    pub fn push_sample_delta(entries: &mut Vec<SttsEntry>, sample_delta: u32) -> (r: Result<
        (),
        Error,
    >)
        ensures
            r is Ok <==> stts_push_spec(old(entries)@, sample_delta) is Some,
            r is Ok ==> stts_push_spec(old(entries)@, sample_delta) == Some(final(entries)@),
            r is Err ==> final(entries)@ == old(entries)@,
            r matches Err(e) ==> e.kind == ErrorKind::InvalidData && e.reason
                == "stts sample_count overflow",
    {
        let n = entries.len();
        if n > 0 && entries[n - 1].sample_delta == sample_delta {
            let count = entries[n - 1].sample_count;
            if count == u32::MAX {
                return Err(Error::invalid_data("stts sample_count overflow"));
            }
            entries.set(n - 1, SttsEntry { sample_count: count + 1, sample_delta });
            return Ok(());
        }
        entries.push(SttsEntry { sample_count: 1, sample_delta });
        Ok(())
    }
}

proof fn lemma_stts_from_none_prefix(deltas: Seq<u32>, k: int)
    requires
        0 <= k <= deltas.len(),
        stts_from_spec(deltas.take(k)) is None,
    ensures
        stts_from_spec(deltas) is None,
    decreases deltas.len() - k,
{
    if k < deltas.len() {
        assert(deltas.take(k + 1).drop_last() =~= deltas.take(k));
        lemma_stts_from_none_prefix(deltas, k + 1);
    } else {
        assert(deltas.take(k) =~= deltas);
    }
}

/// Some `0x1_0000_0000` consecutive durations (a run longer than `u32::MAX`,
/// more than one `stts` entry can count) are all equal.
pub open spec fn has_overlong_run(deltas: Seq<u32>) -> bool {
    exists|i: int|
        0 <= i && i + 0x1_0000_0000 <= deltas.len() && #[trigger] equal_from(deltas, i, 0x1_0000_0000)
}

/// The `m` durations from index `i` on all equal `deltas[i]`.
pub open spec fn equal_from(deltas: Seq<u32>, i: int, m: int) -> bool {
    forall|k: int| i <= k < i + m ==> #[trigger] deltas[k] == deltas[i]
}

/// Length of the run of durations equal to the last one at the end of `d`.
pub open spec fn trailing_run(d: Seq<u32>) -> nat
    decreases d.len(),
{
    if d.len() == 0 {
        0
    } else if d.len() >= 2 && d[d.len() - 2] == d.last() {
        trailing_run(d.drop_last()) + 1
    } else {
        1
    }
}

proof fn lemma_trailing_run_window(p: Seq<u32>, m: int)
    requires
        1 <= m <= p.len(),
    ensures
        trailing_run(p) <= p.len(),
        trailing_run(p) >= m <==> (forall|j: int| p.len() - m <= j < p.len() ==> #[trigger] p[j]
            == p.last()),
    decreases p.len(),
{
    if p.len() >= 2 {
        lemma_trailing_run_window(p.drop_last(), 1);
    }
    if m >= 2 {
        let pd = p.drop_last();
        lemma_trailing_run_window(pd, m - 1);
        if trailing_run(p) >= m {
            assert(p[p.len() - 2] == p.last());
            assert forall|j: int| p.len() - m <= j < p.len() implies #[trigger] p[j] == p.last() by {
                if j < p.len() - 1 {
                    assert(pd[j] == pd.last());
                }
            }
        }
        if forall|j: int| p.len() - m <= j < p.len() ==> #[trigger] p[j] == p.last() {
            assert(p[p.len() - 2] == p.last());
            assert forall|j: int| pd.len() - (m - 1) <= j < pd.len() implies #[trigger] pd[j]
                == pd.last() by {
                assert(p[j] == p.last());
            }
        }
    }
}

proof fn lemma_stts_from_runs(d: Seq<u32>)
    ensures
        stts_from_spec(d) matches Some(e) ==> (e.len() == 0 <==> d.len() == 0) && (d.len() > 0
            ==> e.last().sample_delta == d.last() && e.last().sample_count == trailing_run(d)),
        stts_from_spec(d) is None <==> exists|k: int|
            1 <= k <= d.len() && #[trigger] trailing_run(d.take(k)) >= 0x1_0000_0000,
    decreases d.len(),
{
    if d.len() > 0 {
        let pd = d.drop_last();
        lemma_stts_from_runs(pd);
        assert(d.take(d.len() as int) =~= d);
        assert forall|k: int| 1 <= k <= pd.len() implies #[trigger] d.take(k) == pd.take(k) by {
            assert(d.take(k) =~= pd.take(k));
        }
        if stts_from_spec(pd) is None {
            let k = choose|k: int| 1 <= k <= pd.len() && #[trigger] trailing_run(pd.take(k)) >= 0x1_0000_0000;
            assert(d.take(k) == pd.take(k));
        } else {
            assert(forall|k: int| 1 <= k <= pd.len() ==> #[trigger] trailing_run(pd.take(k)) < 0x1_0000_0000);
            assert forall|k: int| 1 <= k < d.len() implies #[trigger] trailing_run(d.take(k))
                < 0x1_0000_0000 by {
                assert(d.take(k) == pd.take(k));
            }
            let e = stts_from_spec(pd).unwrap();
            if pd.len() > 0 {
                assert(pd.last() == d[d.len() - 2]);
                assert(trailing_run(d) == if d[d.len() - 2] == d.last() {
                    trailing_run(pd) + 1
                } else {
                    1
                });
            }
            if stts_from_spec(d) is Some {
                let e2 = stts_from_spec(d).unwrap();
                assert(e2.len() > 0);
            }
        }
    }
}

/// Run-length encoding fails exactly when more than `u32::MAX` consecutive
/// durations are equal.
pub proof fn lemma_stts_from_fails_on_overlong_run(deltas: Seq<u32>)
    ensures
        stts_from_spec(deltas) is None <==> has_overlong_run(deltas),
{
    lemma_stts_from_runs(deltas);
    let n: int = 0x1_0000_0000;
    if stts_from_spec(deltas) is None {
        let k = choose|k: int| 1 <= k <= deltas.len() && #[trigger] trailing_run(deltas.take(k)) >= n;
        let p = deltas.take(k);
        lemma_trailing_run_window(p, 1);
        lemma_trailing_run_window(p, n);
        let i = k - n;
        assert forall|j: int| i <= j < i + n implies #[trigger] deltas[j] == deltas[i] by {
            assert(p[j] == p.last());
            assert(p[i] == p.last());
        }
        assert(equal_from(deltas, i, n));
    }
    if has_overlong_run(deltas) {
        let i = choose|i: int| 0 <= i && i + n <= deltas.len() && #[trigger] equal_from(deltas, i, n);
        let k = i + n;
        let p = deltas.take(k);
        lemma_trailing_run_window(p, n);
        assert forall|j: int| p.len() - n <= j < p.len() implies #[trigger] p[j] == p.last() by {
            assert(deltas[j] == deltas[i]);
            assert(deltas[k - 1] == deltas[i]);
        }
        assert(trailing_run(deltas.take(k)) >= n);
    }
}

/// Decoding the run-length encoding of sample durations gives the durations
/// back, and neighbouring runs always have different durations.
pub proof fn lemma_stts_roundtrip(deltas: Seq<u32>)
    requires
        stts_from_spec(deltas) is Some,
    ensures
        stts_expand(stts_from_spec(deltas).unwrap()) == deltas,
        forall|i: int|
            0 <= i < stts_from_spec(deltas).unwrap().len() - 1 ==> (
            #[trigger] stts_from_spec(deltas).unwrap()[i]).sample_delta != stts_from_spec(
                deltas,
            ).unwrap()[i + 1].sample_delta,
        forall|i: int|
            0 <= i < stts_from_spec(deltas).unwrap().len() ==> (
            #[trigger] stts_from_spec(deltas).unwrap()[i]).sample_count > 0,
    decreases deltas.len(),
{
    if deltas.len() == 0 {
        assert(stts_expand(Seq::<SttsEntry>::empty()) =~= deltas);
    } else {
        let prev = deltas.drop_last();
        lemma_stts_roundtrip(prev);
        let e = stts_from_spec(prev).unwrap();
        let d = deltas.last();
        let e2 = stts_from_spec(deltas).unwrap();
        if e.len() > 0 && e.last().sample_delta == d {
            let last = e.last();
            assert(e2.drop_last() =~= e.drop_last());
            assert(stts_expand(e) == stts_expand(e.drop_last()) + Seq::new(
                last.sample_count as nat,
                |i: int| last.sample_delta,
            ));
            assert(stts_expand(e2) =~= stts_expand(e.drop_last()) + Seq::new(
                (last.sample_count + 1) as nat,
                |i: int| d,
            ));
            assert(stts_expand(e2) =~= stts_expand(e) + seq![d]);
            assert(deltas =~= prev + seq![d]);
        } else {
            assert(e2.drop_last() =~= e);
            assert(stts_expand(e2) =~= stts_expand(e) + seq![d]);
            assert(deltas =~= prev + seq![d]);
        }
    }
}

// ---------------------------------------------------------------------------
// sdtp flags
// ---------------------------------------------------------------------------

impl SdtpSampleFlags {
    /// Packs the four 2 bit fields (each taken modulo 4) into one byte:
    /// `is_leading` in bits 7..6, `sample_depends_on` in 5..4,
    /// `sample_is_depended_on` in 3..2, `sample_has_redundancy` in 1..0.
    pub fn from_fields(
        is_leading: u8,
        sample_depends_on: u8,
        sample_is_depended_on: u8,
        sample_has_redundancy: u8,
    ) -> (r: SdtpSampleFlags)
        ensures
            r.0 == (is_leading % 4) * 64 + (sample_depends_on % 4) * 16 + (sample_is_depended_on
                % 4) * 4 + sample_has_redundancy % 4,
    {
        SdtpSampleFlags(
            (is_leading % 4) * 64 + (sample_depends_on % 4) * 16 + (sample_is_depended_on % 4) * 4
                + sample_has_redundancy % 4,
        )
    }

    /// The raw byte.
    pub fn get(self) -> (r: u8)
        ensures
            r == self.0,
    {
        self.0
    }

    /// `is_leading` (bits 7..6).
    pub fn is_leading(self) -> (r: u8)
        ensures
            r == self.0 / 64,
    {
        self.0 / 64
    }

    /// `sample_depends_on` (bits 5..4).
    pub fn sample_depends_on(self) -> (r: u8)
        ensures
            r == (self.0 / 16) % 4,
    {
        (self.0 / 16) % 4
    }

    /// `sample_is_depended_on` (bits 3..2).
    pub fn sample_is_depended_on(self) -> (r: u8)
        ensures
            r == (self.0 / 4) % 4,
    {
        (self.0 / 4) % 4
    }

    /// `sample_has_redundancy` (bits 1..0).
    pub fn sample_has_redundancy(self) -> (r: u8)
        ensures
            r == self.0 % 4,
    {
        self.0 % 4
    }
}

/// Each field packed by `from_fields` reads back (modulo 4) through its getter.
pub proof fn lemma_sdtp_fields_roundtrip(a: u8, b: u8, c: u8, d: u8)
    ensures
        ({
            let v = (a % 4) * 64 + (b % 4) * 16 + (c % 4) * 4 + d % 4;
            &&& v / 64 == a % 4
            &&& (v / 16) % 4 == b % 4
            &&& (v / 4) % 4 == c % 4
            &&& v % 4 == d % 4
        }),
{
    let (a, b, c, d) = ((a % 4) as int, (b % 4) as int, (c % 4) as int, (d % 4) as int);
    let v = a * 64 + b * 16 + c * 4 + d;
    assert(v / 64 == a) by (nonlinear_arith)
        requires 0 <= a < 4, 0 <= b < 4, 0 <= c < 4, 0 <= d < 4, v == a * 64 + b * 16 + c * 4 + d;
    assert((v / 16) % 4 == b) by (nonlinear_arith)
        requires 0 <= a < 4, 0 <= b < 4, 0 <= c < 4, 0 <= d < 4, v == a * 64 + b * 16 + c * 4 + d;
    assert((v / 4) % 4 == c) by (nonlinear_arith)
        requires 0 <= a < 4, 0 <= b < 4, 0 <= c < 4, 0 <= d < 4, v == a * 64 + b * 16 + c * 4 + d;
    assert(v % 4 == d) by (nonlinear_arith)
        requires 0 <= a < 4, 0 <= b < 4, 0 <= c < 4, 0 <= d < 4, v == a * 64 + b * 16 + c * 4 + d;
}

} // verus!

verus! {

/// The payload of the box with type code `code` at the start of `s`, and
/// the box size; `None` when the header does not read or the type differs.
pub open spec fn box_payload_of(s: Seq<u8>, code: Seq<u8>) -> Option<(Seq<u8>, nat)> {
    match box_header_spec(s) {
        None => None,
        Some((t, hl, size)) => if t != code {
            None
        } else {
            Some((s.subrange(hl as int, size as int), size))
        },
    }
}

/// Locates the payload of the box of type `code` at the start of `buf`:
/// `(payload start, box end)`.
pub(crate) fn box_payload_range(buf: &[u8], code: [u8; 4]) -> (r: Result<(usize, usize), Error>)
    ensures
        r is Ok <==> box_payload_of(buf@, code@) is Some,
        r matches Ok((a, b)) ==> a <= b <= buf@.len() && box_payload_of(buf@, code@) == Some(
            (buf@.subrange(a as int, b as int), b as nat),
        ),
        r matches Err(e) ==> e.kind == ErrorKind::InvalidData,
{
    let (t, hl, size) = decode_box_header(buf)?;
    let same = match t {
        BoxType::Normal(c) => c[0] == code[0] && c[1] == code[1] && c[2] == code[2] && c[3] == code[3],
        BoxType::Uuid(_) => false,
    };
    proof {
        match t {
            BoxType::Normal(c) => {
                if same {
                    assert(c@ =~= code@);
                } else {
                    assert(c@ != code@) by {
                        if c@ == code@ {
                            assert(c@[0] == code@[0] && c@[1] == code@[1] && c@[2] == code@[2] && c@[3] == code@[3]);
                        }
                    }
                }
            },
            BoxType::Uuid(u) => {
                assert(u@.len() == 16);
                assert(box_type_bytes(t) != code@);
            },
        }
    }
    if !same {
        return Err(Error::invalid_data("unexpected box type"));
    }
    Ok((hl, size))
}

/// Type code of `stts`.
pub open spec fn stts_code() -> Seq<u8> {
    seq![0x73u8, 0x74, 0x74, 0x73]
}

/// The record of one `stts` entry.
pub open spec fn stts_record(e: SttsEntry) -> Seq<u8> {
    be_bytes(e.sample_count as nat, 4) + be_bytes(e.sample_delta as nat, 4)
}

/// Payload of an `stts` box: version and flags 0, the entry count, the entries.
pub open spec fn stts_payload(entries: Seq<SttsEntry>) -> Seq<u8> {
    be_bytes(0, 4) + be_bytes(entries.len(), 4) + concat_records(
        entries.map_values(|e: SttsEntry| stts_record(e)),
    )
}

/// An `stts` box of the entries.
pub open spec fn stts_box_bytes(entries: Seq<SttsEntry>) -> Seq<u8> {
    box_bytes(BoxType::Normal([0x73u8, 0x74, 0x74, 0x73]), stts_payload(entries))
}

/// What decoding the `stts` box at the start of `s` gives: the entries and
/// the box size; `None` when it is not an `stts` box or its entries run past
/// the payload.
pub open spec fn stts_decode_spec(s: Seq<u8>) -> Option<(Seq<SttsEntry>, nat)> {
    match box_payload_of(s, stts_code()) {
        None => None,
        Some((p, size)) => if p.len() < 8 || 8 + 8 * be_value(p, 4, 4) > p.len() {
            None
        } else {
            Some(
                (
                    Seq::new(
                        be_value(p, 4, 4),
                        |i: int|
                            SttsEntry {
                                sample_count: be_value(p, 8 + 8 * i, 4) as u32,
                                sample_delta: be_value(p, 12 + 8 * i, 4) as u32,
                            },
                    ),
                    size,
                ),
            )
        },
    }
}

impl SttsBox {
    /// Encodes the box (version 0).
    pub fn encode(&self) -> (r: Vec<u8>)
        requires
            self.entries@.len() <= u32::MAX,
            8 * self.entries@.len() + 64 <= usize::MAX,
        ensures
            r@ == stts_box_bytes(self.entries@),
    {
        let ghost recs = self.entries@.map_values(|e: SttsEntry| stts_record(e));
        let mut payload: Vec<u8> = Vec::new();
        put_be(&mut payload, 0, 4);
        put_be(&mut payload, self.entries.len() as u64, 4);
        proof {
            crate::codec::lemma_be_bytes_len(0, 4);
            crate::codec::lemma_be_bytes_len(self.entries@.len() as nat, 4);
            assert(recs.take(0) =~= Seq::<Seq<u8>>::empty());
        }
        let ghost head = payload@;
        let mut i: usize = 0;
        while i < self.entries.len()
            invariant
                recs == self.entries@.map_values(|e: SttsEntry| stts_record(e)),
                i <= self.entries@.len(),
                payload@ == head + concat_records(recs.take(i as int)),
                payload@.len() == 8 + 8 * i,
                8 * self.entries@.len() + 64 <= usize::MAX,
            decreases self.entries@.len() - i,
        {
            let e = self.entries[i];
            let ghost before = payload@;
            put_be(&mut payload, e.sample_count as u64, 4);
            put_be(&mut payload, e.sample_delta as u64, 4);
            proof {
                lemma_concat_records_push(recs, i as int);
                crate::codec::lemma_be_bytes_len(e.sample_count as nat, 4);
                crate::codec::lemma_be_bytes_len(e.sample_delta as nat, 4);
                assert(payload@ =~= head + concat_records(recs.take(i + 1)));
            }
            i += 1;
        }
        proof {
            assert(recs.take(i as int) =~= recs);
        }
        let mut out: Vec<u8> = Vec::new();
        put_box(&mut out, &BoxType::Normal([0x73u8, 0x74, 0x74, 0x73]), payload.as_slice());
        proof {
            assert(out@ =~= stts_box_bytes(self.entries@));
        }
        out
    }

    /// Decodes the `stts` box at the start of `buf`, returning it and its size.
    pub fn decode(buf: &[u8]) -> (r: Result<(SttsBox, usize), Error>)
        ensures
            r is Ok <==> stts_decode_spec(buf@) is Some,
            r matches Ok((b, n)) ==> stts_decode_spec(buf@) == Some((b.entries@, n as nat)),
            r matches Err(e) ==> e.kind == ErrorKind::InvalidData,
    {
        let (start, end) = box_payload_range(buf, [0x73u8, 0x74, 0x74, 0x73])?;
        proof {
            assert([0x73u8, 0x74, 0x74, 0x73]@ =~= stts_code());
        }
        let payload = &buf[start..end];
        let count = read_be(payload, 4, 4)?;
        let ghost p = payload@;
        if payload.len() < 8 || (payload.len() as u64 - 8) / 8 < count {
            return Err(Error::invalid_data("stts entries exceed the box"));
        }
        let count = count as usize;
        let mut entries: Vec<SttsEntry> = Vec::new();
        let mut i: usize = 0;
        while i < count
            invariant
                p == payload@,
                p.len() <= usize::MAX,
                8 + 8 * count <= p.len(),
                count == be_value(p, 4, 4),
                i <= count,
                entries@.len() == i,
                forall|k: int|
                    0 <= k < i ==> #[trigger] entries@[k] == (SttsEntry {
                        sample_count: be_value(p, 8 + 8 * k, 4) as u32,
                        sample_delta: be_value(p, 12 + 8 * k, 4) as u32,
                    }),
            decreases count - i,
        {
            let at = 8 + 8 * i;
            let sample_count = read_be(payload, at, 4)?;
            let sample_delta = read_be(payload, at + 4, 4)?;
            entries.push(SttsEntry { sample_count: sample_count as u32, sample_delta: sample_delta as u32 });
            i += 1;
        }
        proof {
            let want = Seq::new(
                be_value(p, 4, 4),
                |k: int|
                    SttsEntry {
                        sample_count: be_value(p, 8 + 8 * k, 4) as u32,
                        sample_delta: be_value(p, 12 + 8 * k, 4) as u32,
                    },
            );
            assert(entries@ =~= want);
        }
        Ok((SttsBox { entries }, end))
    }
}

/// Decoding an encoded `stts` box gives back its entries and size.
pub proof fn lemma_stts_codec_roundtrip(entries: Seq<SttsEntry>)
    requires
        entries.len() <= u32::MAX,
    ensures
        stts_decode_spec(stts_box_bytes(entries)) == Some((entries, stts_box_bytes(entries).len())),
{
    let recs = entries.map_values(|e: SttsEntry| stts_record(e));
    let body = concat_records(recs);
    lemma_pow256_values();
    assert forall|i: int| 0 <= i < recs.len() implies (#[trigger] recs[i]).len() == 8 by {
        crate::codec::lemma_be_bytes_len(entries[i].sample_count as nat, 4);
        crate::codec::lemma_be_bytes_len(entries[i].sample_delta as nat, 4);
    }
    lemma_concat_records(recs, 8);
    lemma_be_roundtrip(0, 4);
    lemma_be_roundtrip(entries.len(), 4);
    let h0 = be_bytes(0, 4);
    let h1 = be_bytes(entries.len(), 4);
    let p = stts_payload(entries);
    assert(p =~= (h0 + h1) + body);
    assert(be_value(p, 4, 4) == entries.len()) by {
        lemma_be_value_prefix(h0 + h1, body, 4, 4);
        lemma_be_value_suffix(h0, h1, 0, 4);
    }
    assert([0x73u8, 0x74, 0x74, 0x73]@ =~= stts_code());
    assert(stts_code() != crate::codec::uuid_code());
    lemma_box_bytes_header([0x73u8, 0x74, 0x74, 0x73], p);
    let s = stts_box_bytes(entries);
    let decoded = stts_decode_spec(s).unwrap().0;
    assert forall|i: int| 0 <= i < entries.len() implies #[trigger] decoded[i] == entries[i] by {
        let e = entries[i];
        let r = recs[i];
        assert(r == be_bytes(e.sample_count as nat, 4) + be_bytes(e.sample_delta as nat, 4));
        lemma_be_roundtrip(e.sample_count as nat, 4);
        lemma_be_roundtrip(e.sample_delta as nat, 4);
        assert forall|j: int| 0 <= j < 8 implies p[8 + 8 * i + j] == r[j] by {
            assert(body[i * 8 + j] == recs[i][j]);
            assert(8 * i + j == i * 8 + j);
        }
        lemma_be_value_within(p, r, 8 + 8 * i, 0, 4);
        lemma_be_value_within(p, r, 8 + 8 * i, 4, 4);
        lemma_be_value_prefix(be_bytes(e.sample_count as nat, 4), be_bytes(e.sample_delta as nat, 4), 0, 4);
        lemma_be_value_suffix(be_bytes(e.sample_count as nat, 4), be_bytes(e.sample_delta as nat, 4), 0, 4);
    }
    assert(decoded =~= entries);
}

} // verus!

verus! {

/// Type code of `stco`.
pub open spec fn stco_code() -> Seq<u8> {
    seq![0x73u8, 0x74, 0x63, 0x6f]
}

/// Type code of `co64`.
pub open spec fn co64_code() -> Seq<u8> {
    seq![0x63u8, 0x6f, 0x36, 0x34]
}

/// Type code of `stss`.
pub open spec fn stss_code() -> Seq<u8> {
    seq![0x73u8, 0x74, 0x73, 0x73]
}

/// Type code of `stsz`.
pub open spec fn stsz_code() -> Seq<u8> {
    seq![0x73u8, 0x74, 0x73, 0x7a]
}

/// Version 0 and flags 0 of a full box.
pub open spec fn full_box_v0() -> Seq<u8> {
    be_bytes(0, 4)
}

/// An `stco` box of the chunk offsets.
pub open spec fn stco_box_bytes(offsets: Seq<u32>) -> Seq<u8> {
    box_bytes(BoxType::Normal([0x73u8, 0x74, 0x63, 0x6f]), counted_list_payload(full_box_v0(), u32_vals(offsets), 4))
}

/// A `co64` box of the chunk offsets.
pub open spec fn co64_box_bytes(offsets: Seq<u64>) -> Seq<u8> {
    box_bytes(BoxType::Normal([0x63u8, 0x6f, 0x36, 0x34]), counted_list_payload(full_box_v0(), u64_vals(offsets), 8))
}

/// An `stss` box of the sample numbers.
pub open spec fn stss_box_bytes(numbers: Seq<u32>) -> Seq<u8> {
    box_bytes(BoxType::Normal([0x73u8, 0x74, 0x73, 0x73]), counted_list_payload(full_box_v0(), u32_vals(numbers), 4))
}

/// The values of the counted list box of type `code` at the start of `s`
/// (`w` bytes each), and the box size.
pub open spec fn list_box_decode_spec(s: Seq<u8>, code: Seq<u8>, w: nat) -> Option<(Seq<nat>, nat)> {
    match box_payload_of(s, code) {
        None => None,
        Some((p, size)) => match counted_list_at(p, 4, w) {
            None => None,
            Some(v) => Some((v, size)),
        },
    }
}

/// What decoding the `stss` box at the start of `s` gives: the sample
/// numbers (none may be 0) and the box size.
pub open spec fn stss_decode_spec(s: Seq<u8>) -> Option<(Seq<nat>, nat)> {
    match list_box_decode_spec(s, stss_code(), 4) {
        Some((v, n)) => if (forall|i: int| 0 <= i < v.len() ==> #[trigger] v[i] != 0) {
            Some((v, n))
        } else {
            None
        },
        None => None,
    }
}

/// Decodes the counted list box of type `code` (4 byte values).
fn decode_u32_list_box(buf: &[u8], code: [u8; 4]) -> (r: Result<(Vec<u32>, usize), Error>)
    ensures
        r is Ok <==> list_box_decode_spec(buf@, code@, 4) is Some,
        r matches Ok((v, n)) ==> list_box_decode_spec(buf@, code@, 4) == Some((u32_vals(v@), n as nat)),
        r matches Err(e) ==> e.kind == ErrorKind::InvalidData,
{
    let (start, end) = box_payload_range(buf, code)?;
    let payload = &buf[start..end];
    let vals = read_counted_list(payload, 4, 4)?;
    proof {
        lemma_pow256_values();
        assert forall|i: int| 0 <= i < vals@.len() implies #[trigger] vals@[i] <= u32::MAX by {
            let p = payload@;
            let l = counted_list_at(p, 4, 4).unwrap();
            assert(u64_vals(vals@) == l);
            assert(l[i] == be_value(p, 8 + 4 * i, 4));
            assert(u64_vals(vals@)[i] == vals@[i] as nat);
            lemma_be_value_bound(p, 8 + 4 * i, 4);
        }
    }
    Ok((to_u32_list(&vals), end))
}

/// Encodes a counted list box of `u32` values behind version / flags 0.
fn encode_u32_list_box(code: [u8; 4], vals: &[u32]) -> (r: Vec<u8>)
    requires
        vals@.len() <= u32::MAX,
        4 * vals@.len() + 64 <= usize::MAX,
    ensures
        r@ == box_bytes(BoxType::Normal(code), counted_list_payload(full_box_v0(), u32_vals(vals@), 4)),
{
    let mut payload: Vec<u8> = Vec::new();
    put_be(&mut payload, 0, 4);
    put_be(&mut payload, vals.len() as u64, 4);
    put_u32_list(&mut payload, vals);
    proof {
        let vs = u32_vals(vals@);
        assert(payload@ =~= counted_list_payload(full_box_v0(), vs, 4));
        let recs = vs.map_values(|v: nat| be_bytes(v, 4));
        assert forall|i: int| 0 <= i < recs.len() implies (#[trigger] recs[i]).len() == 4 by {
            crate::codec::lemma_be_bytes_len(vs[i], 4);
        }
        lemma_concat_records(recs, 4);
        crate::codec::lemma_be_bytes_len(0, 4);
        crate::codec::lemma_be_bytes_len(vs.len(), 4);
    }
    let mut out: Vec<u8> = Vec::new();
    put_box(&mut out, &BoxType::Normal(code), payload.as_slice());
    out
}

/// A counted `u32` list box reads back.
proof fn lemma_u32_list_box_roundtrip(code: [u8; 4], vals: Seq<u32>)
    requires
        code@ != crate::codec::uuid_code(),
        vals.len() <= u32::MAX,
    ensures
        list_box_decode_spec(
            box_bytes(BoxType::Normal(code), counted_list_payload(full_box_v0(), u32_vals(vals), 4)),
            code@,
            4,
        ) == Some(
            (
                u32_vals(vals),
                box_bytes(BoxType::Normal(code), counted_list_payload(full_box_v0(), u32_vals(vals), 4)).len(),
            ),
        ),
{
    let vs = u32_vals(vals);
    lemma_pow256_values();
    let p = counted_list_payload(full_box_v0(), vs, 4);
    assert forall|i: int| 0 <= i < vs.len() implies #[trigger] vs[i] < crate::codec::pow256(4) by {}
    lemma_counted_list_roundtrip(full_box_v0(), vs, 4);
    crate::codec::lemma_be_bytes_len(0, 4);
    let recs = vs.map_values(|v: nat| be_bytes(v, 4));
    assert forall|i: int| 0 <= i < recs.len() implies (#[trigger] recs[i]).len() == 4 by {
        crate::codec::lemma_be_bytes_len(vs[i], 4);
    }
    lemma_concat_records(recs, 4);
    crate::codec::lemma_be_bytes_len(vs.len(), 4);
    lemma_box_bytes_header(code, p);
}

impl StcoBox {
    /// Encodes the box.
    pub fn encode(&self) -> (r: Vec<u8>)
        requires
            self.chunk_offsets@.len() <= u32::MAX,
            4 * self.chunk_offsets@.len() + 64 <= usize::MAX,
        ensures
            r@ == stco_box_bytes(self.chunk_offsets@),
    {
        encode_u32_list_box([0x73u8, 0x74, 0x63, 0x6f], self.chunk_offsets.as_slice())
    }

    /// Decodes the `stco` box at the start of `buf`, returning it and its size.
    pub fn decode(buf: &[u8]) -> (r: Result<(StcoBox, usize), Error>)
        ensures
            r is Ok <==> list_box_decode_spec(buf@, stco_code(), 4) is Some,
            r matches Ok((b, n)) ==> list_box_decode_spec(buf@, stco_code(), 4) == Some(
                (u32_vals(b.chunk_offsets@), n as nat),
            ),
            r matches Err(e) ==> e.kind == ErrorKind::InvalidData,
    {
        proof {
            assert([0x73u8, 0x74, 0x63, 0x6f]@ =~= stco_code());
        }
        let (chunk_offsets, n) = decode_u32_list_box(buf, [0x73u8, 0x74, 0x63, 0x6f])?;
        Ok((StcoBox { chunk_offsets }, n))
    }
}

impl StssBox {
    /// Encodes the box.
    pub fn encode(&self) -> (r: Vec<u8>)
        requires
            self.sample_numbers@.len() <= u32::MAX,
            4 * self.sample_numbers@.len() + 64 <= usize::MAX,
        ensures
            r@ == stss_box_bytes(self.sample_numbers@),
    {
        encode_u32_list_box([0x73u8, 0x74, 0x73, 0x73], self.sample_numbers.as_slice())
    }

    /// Decodes the `stss` box at the start of `buf`, returning it and its
    /// size; sample number 0 is rejected.
    pub fn decode(buf: &[u8]) -> (r: Result<(StssBox, usize), Error>)
        ensures
            r is Ok <==> stss_decode_spec(buf@) is Some,
            r matches Ok((b, n)) ==> stss_decode_spec(buf@) == Some((u32_vals(b.sample_numbers@), n as nat)),
            r matches Err(e) ==> e.kind == ErrorKind::InvalidData,
    {
        proof {
            assert([0x73u8, 0x74, 0x73, 0x73]@ =~= stss_code());
        }
        let (sample_numbers, n) = decode_u32_list_box(buf, [0x73u8, 0x74, 0x73, 0x73])?;
        let mut i: usize = 0;
        while i < sample_numbers.len()
            invariant
                list_box_decode_spec(buf@, stss_code(), 4) == Some((u32_vals(sample_numbers@), n as nat)),
                i <= sample_numbers@.len(),
                forall|k: int| 0 <= k < i ==> #[trigger] sample_numbers@[k] != 0,
            decreases sample_numbers@.len() - i,
        {
            if sample_numbers[i] == 0 {
                proof {
                    assert(u32_vals(sample_numbers@)[i as int] == 0);
                }
                return Err(Error::invalid_data("stss sample number must not be 0"));
            }
            i += 1;
        }
        proof {
            assert forall|k: int| 0 <= k < sample_numbers@.len() implies #[trigger] u32_vals(sample_numbers@)[k] != 0 by {
                assert(sample_numbers@[k] != 0);
            }
        }
        Ok((StssBox { sample_numbers }, n))
    }
}

impl Co64Box {
    /// Encodes the box.
    pub fn encode(&self) -> (r: Vec<u8>)
        requires
            self.chunk_offsets@.len() <= u32::MAX,
            8 * self.chunk_offsets@.len() + 64 <= usize::MAX,
        ensures
            r@ == co64_box_bytes(self.chunk_offsets@),
    {
        let mut payload: Vec<u8> = Vec::new();
        put_be(&mut payload, 0, 4);
        put_be(&mut payload, self.chunk_offsets.len() as u64, 4);
        put_u64_list(&mut payload, self.chunk_offsets.as_slice());
        proof {
            let vs = u64_vals(self.chunk_offsets@);
            assert(payload@ =~= counted_list_payload(full_box_v0(), vs, 8));
            let recs = vs.map_values(|v: nat| be_bytes(v, 8));
            assert forall|i: int| 0 <= i < recs.len() implies (#[trigger] recs[i]).len() == 8 by {
                crate::codec::lemma_be_bytes_len(vs[i], 8);
            }
            lemma_concat_records(recs, 8);
            crate::codec::lemma_be_bytes_len(0, 4);
            crate::codec::lemma_be_bytes_len(vs.len(), 4);
        }
        let mut out: Vec<u8> = Vec::new();
        put_box(&mut out, &BoxType::Normal([0x63u8, 0x6f, 0x36, 0x34]), payload.as_slice());
        out
    }

    /// Decodes the `co64` box at the start of `buf`, returning it and its size.
    pub fn decode(buf: &[u8]) -> (r: Result<(Co64Box, usize), Error>)
        ensures
            r is Ok <==> list_box_decode_spec(buf@, co64_code(), 8) is Some,
            r matches Ok((b, n)) ==> list_box_decode_spec(buf@, co64_code(), 8) == Some(
                (u64_vals(b.chunk_offsets@), n as nat),
            ),
            r matches Err(e) ==> e.kind == ErrorKind::InvalidData,
    {
        proof {
            assert([0x63u8, 0x6f, 0x36, 0x34]@ =~= co64_code());
        }
        let (start, end) = box_payload_range(buf, [0x63u8, 0x6f, 0x36, 0x34])?;
        let payload = &buf[start..end];
        let chunk_offsets = read_counted_list(payload, 4, 8)?;
        Ok((Co64Box { chunk_offsets }, end))
    }
}

/// Decoding an encoded `stco` box gives back its offsets and size.
pub proof fn lemma_stco_codec_roundtrip(offsets: Seq<u32>)
    requires
        offsets.len() <= u32::MAX,
    ensures
        list_box_decode_spec(stco_box_bytes(offsets), stco_code(), 4) == Some(
            (u32_vals(offsets), stco_box_bytes(offsets).len()),
        ),
{
    assert([0x73u8, 0x74, 0x63, 0x6f]@ =~= stco_code());
    lemma_u32_list_box_roundtrip([0x73u8, 0x74, 0x63, 0x6f], offsets);
}

/// Decoding an encoded `stss` box gives back its sample numbers and size,
/// when none is 0.
pub proof fn lemma_stss_codec_roundtrip(numbers: Seq<u32>)
    requires
        numbers.len() <= u32::MAX,
        forall|i: int| 0 <= i < numbers.len() ==> #[trigger] numbers[i] != 0,
    ensures
        stss_decode_spec(stss_box_bytes(numbers)) == Some((u32_vals(numbers), stss_box_bytes(numbers).len())),
{
    assert([0x73u8, 0x74, 0x73, 0x73]@ =~= stss_code());
    lemma_u32_list_box_roundtrip([0x73u8, 0x74, 0x73, 0x73], numbers);
    assert forall|i: int| 0 <= i < numbers.len() implies #[trigger] u32_vals(numbers)[i] != 0 by {
        assert(numbers[i] != 0);
    }
}

/// Decoding an encoded `co64` box gives back its offsets and size.
pub proof fn lemma_co64_codec_roundtrip(offsets: Seq<u64>)
    requires
        offsets.len() <= u32::MAX,
    ensures
        list_box_decode_spec(co64_box_bytes(offsets), co64_code(), 8) == Some(
            (u64_vals(offsets), co64_box_bytes(offsets).len()),
        ),
{
    let vs = u64_vals(offsets);
    lemma_pow256_values();
    assert([0x63u8, 0x6f, 0x36, 0x34]@ =~= co64_code());
    assert forall|i: int| 0 <= i < vs.len() implies #[trigger] vs[i] < crate::codec::pow256(8) by {}
    lemma_counted_list_roundtrip(full_box_v0(), vs, 8);
    let recs = vs.map_values(|v: nat| be_bytes(v, 8));
    assert forall|i: int| 0 <= i < recs.len() implies (#[trigger] recs[i]).len() == 8 by {
        crate::codec::lemma_be_bytes_len(vs[i], 8);
    }
    lemma_concat_records(recs, 8);
    crate::codec::lemma_be_bytes_len(0, 4);
    crate::codec::lemma_be_bytes_len(vs.len(), 4);
    lemma_box_bytes_header([0x63u8, 0x6f, 0x36, 0x34], counted_list_payload(full_box_v0(), vs, 8));
}

} // verus!

verus! {

/// `(sample_size, sample_count, per-sample sizes)` of an `stsz` box: a
/// fixed size has no per-sample sizes; varying sizes have `sample_size` 0.
pub open spec fn stsz_view(b: StszBox) -> (nat, nat, Seq<nat>) {
    match b {
        StszBox::Fixed { sample_size, sample_count } => (sample_size as nat, sample_count as nat, Seq::empty()),
        StszBox::Variable { entry_sizes } => (0, entry_sizes@.len(), u32_vals(entry_sizes@)),
    }
}

/// Payload of an `stsz` box.
pub open spec fn stsz_payload(b: StszBox) -> Seq<u8> {
    match b {
        StszBox::Fixed { sample_size, sample_count } => full_box_v0() + be_bytes(sample_size as nat, 4)
            + be_bytes(sample_count as nat, 4),
        StszBox::Variable { entry_sizes } => counted_list_payload(
            full_box_v0() + be_bytes(0, 4),
            u32_vals(entry_sizes@),
            4,
        ),
    }
}

/// An `stsz` box.
pub open spec fn stsz_box_bytes(b: StszBox) -> Seq<u8> {
    box_bytes(BoxType::Normal([0x73u8, 0x74, 0x73, 0x7a]), stsz_payload(b))
}

/// What decoding the `stsz` box at the start of `s` gives: its view (see
/// [`stsz_view`]) and the box size. A non-zero `sample_size` means a fixed size.
pub open spec fn stsz_decode_spec(s: Seq<u8>) -> Option<((nat, nat, Seq<nat>), nat)> {
    match box_payload_of(s, stsz_code()) {
        None => None,
        Some((p, size)) => if p.len() < 12 {
            None
        } else if be_value(p, 4, 4) != 0 {
            Some(((be_value(p, 4, 4), be_value(p, 8, 4), Seq::empty()), size))
        } else {
            match counted_list_at(p, 8, 4) {
                None => None,
                Some(v) => Some(((0nat, v.len(), v), size)),
            }
        },
    }
}

impl StszBox {
    /// Encodes the box.
    pub fn encode(&self) -> (r: Vec<u8>)
        requires
            self matches StszBox::Variable { entry_sizes } ==> entry_sizes@.len() <= u32::MAX && 4
                * entry_sizes@.len() + 64 <= usize::MAX,
        ensures
            r@ == stsz_box_bytes(*self),
    {
        let mut payload: Vec<u8> = Vec::new();
        put_be(&mut payload, 0, 4);
        match self {
            StszBox::Fixed { sample_size, sample_count } => {
                put_be(&mut payload, *sample_size as u64, 4);
                put_be(&mut payload, *sample_count as u64, 4);
                proof {
                    assert(payload@ =~= stsz_payload(*self));
                    crate::codec::lemma_be_bytes_len(0, 4);
                    crate::codec::lemma_be_bytes_len(*sample_size as nat, 4);
                    crate::codec::lemma_be_bytes_len(*sample_count as nat, 4);
                    assert(payload@.len() == 12);
                }
            },
            StszBox::Variable { entry_sizes } => {
                put_be(&mut payload, 0, 4);
                put_be(&mut payload, entry_sizes.len() as u64, 4);
                put_u32_list(&mut payload, entry_sizes.as_slice());
                proof {
                    assert(payload@ =~= stsz_payload(*self));
                    let vs = u32_vals(entry_sizes@);
                    let recs = vs.map_values(|v: nat| be_bytes(v, 4));
                    assert forall|i: int| 0 <= i < recs.len() implies (#[trigger] recs[i]).len() == 4 by {
                        crate::codec::lemma_be_bytes_len(vs[i], 4);
                    }
                    lemma_concat_records(recs, 4);
                    crate::codec::lemma_be_bytes_len(0, 4);
                    crate::codec::lemma_be_bytes_len(entry_sizes@.len() as nat, 4);
                    assert(payload@.len() == 12 + 4 * entry_sizes@.len());
                }
            },
        }
        let mut out: Vec<u8> = Vec::new();
        put_box(&mut out, &BoxType::Normal([0x73u8, 0x74, 0x73, 0x7a]), payload.as_slice());
        out
    }

    /// Decodes the `stsz` box at the start of `buf`, returning it and its size.
    pub fn decode(buf: &[u8]) -> (r: Result<(StszBox, usize), Error>)
        ensures
            r is Ok <==> stsz_decode_spec(buf@) is Some,
            r matches Ok((b, n)) ==> stsz_decode_spec(buf@) == Some((stsz_view(b), n as nat)),
            r matches Ok((b, _)) ==> (b matches StszBox::Fixed { sample_size, .. } ==> sample_size != 0),
            r matches Err(e) ==> e.kind == ErrorKind::InvalidData,
    {
        proof {
            assert([0x73u8, 0x74, 0x73, 0x7a]@ =~= stsz_code());
        }
        let (start, end) = box_payload_range(buf, [0x73u8, 0x74, 0x73, 0x7a])?;
        let payload = &buf[start..end];
        if payload.len() < 12 {
            return Err(Error::invalid_data("stsz box is truncated"));
        }
        let sample_size = read_be(payload, 4, 4)?;
        proof {
            lemma_pow256_values();
        }
        if sample_size != 0 {
            let sample_count = read_be(payload, 8, 4)?;
            return Ok((StszBox::Fixed { sample_size: sample_size as u32, sample_count: sample_count as u32 }, end));
        }
        let vals = read_counted_list(payload, 8, 4)?;
        proof {
            assert forall|i: int| 0 <= i < vals@.len() implies #[trigger] vals@[i] <= u32::MAX by {
                let p = payload@;
                let l = counted_list_at(p, 8, 4).unwrap();
                assert(u64_vals(vals@) == l);
                assert(l[i] == be_value(p, 12 + 4 * i, 4));
                assert(u64_vals(vals@)[i] == vals@[i] as nat);
                lemma_be_value_bound(p, 12 + 4 * i, 4);
            }
        }
        let entry_sizes = to_u32_list(&vals);
        proof {
            assert(u32_vals(entry_sizes@).len() == entry_sizes@.len());
        }
        Ok((StszBox::Variable { entry_sizes }, end))
    }
}

/// Decoding an encoded `stsz` box gives back its view and size, for a
/// fixed size that is not 0 and at most `u32::MAX` varying sizes.
pub proof fn lemma_stsz_codec_roundtrip(b: StszBox)
    requires
        match b {
            StszBox::Fixed { sample_size, .. } => sample_size != 0,
            StszBox::Variable { entry_sizes } => entry_sizes@.len() <= u32::MAX,
        },
    ensures
        stsz_decode_spec(stsz_box_bytes(b)) == Some((stsz_view(b), stsz_box_bytes(b).len())),
{
    lemma_pow256_values();
    assert([0x73u8, 0x74, 0x73, 0x7a]@ =~= stsz_code());
    let p = stsz_payload(b);
    crate::codec::lemma_be_bytes_len(0, 4);
    match b {
        StszBox::Fixed { sample_size, sample_count } => {
            lemma_be_roundtrip(sample_size as nat, 4);
            lemma_be_roundtrip(sample_count as nat, 4);
            let a = full_box_v0();
            let x = be_bytes(sample_size as nat, 4);
            let y = be_bytes(sample_count as nat, 4);
            assert(p =~= a + (x + y));
            lemma_be_value_suffix(a, x + y, 0, 4);
            lemma_be_value_prefix(x, y, 0, 4);
            assert(p =~= (a + x) + y);
            lemma_be_value_suffix(a + x, y, 0, 4);
        },
        StszBox::Variable { entry_sizes } => {
            let vs = u32_vals(entry_sizes@);
            let head = full_box_v0() + be_bytes(0, 4);
            lemma_be_roundtrip(0, 4);
            assert forall|i: int| 0 <= i < vs.len() implies #[trigger] vs[i] < crate::codec::pow256(4) by {}
            lemma_counted_list_roundtrip(head, vs, 4);
            let recs = vs.map_values(|v: nat| be_bytes(v, 4));
            assert forall|i: int| 0 <= i < recs.len() implies (#[trigger] recs[i]).len() == 4 by {
                crate::codec::lemma_be_bytes_len(vs[i], 4);
            }
            lemma_concat_records(recs, 4);
            crate::codec::lemma_be_bytes_len(vs.len(), 4);
            assert(p =~= full_box_v0() + (be_bytes(0, 4) + (be_bytes(vs.len(), 4) + be_list_bytes(vs, 4))));
            lemma_be_value_suffix(full_box_v0(), be_bytes(0, 4) + (be_bytes(vs.len(), 4) + be_list_bytes(vs, 4)), 0, 4);
            lemma_be_value_prefix(be_bytes(0, 4), be_bytes(vs.len(), 4) + be_list_bytes(vs, 4), 0, 4);
        },
    }
    lemma_box_bytes_header([0x73u8, 0x74, 0x73, 0x7a], p);
}

} // verus!

verus! {

/// Type code of `stsc`.
pub open spec fn stsc_code() -> Seq<u8> {
    seq![0x73u8, 0x74, 0x73, 0x63]
}

/// The record of one `stsc` entry.
pub open spec fn stsc_record(e: StscEntry) -> Seq<u8> {
    be_bytes(e.first_chunk as nat, 4) + be_bytes(e.sample_per_chunk as nat, 4) + be_bytes(
        e.sample_description_index as nat,
        4,
    )
}

/// An `stsc` box of the entries.
pub open spec fn stsc_box_bytes(entries: Seq<StscEntry>) -> Seq<u8> {
    box_bytes(
        BoxType::Normal([0x73u8, 0x74, 0x73, 0x63]),
        full_box_v0() + be_bytes(entries.len(), 4) + concat_records(
            entries.map_values(|e: StscEntry| stsc_record(e)),
        ),
    )
}

/// The `stsc` entry recorded at index `i` of payload `p`.
pub open spec fn stsc_entry_at(p: Seq<u8>, i: int) -> StscEntry {
    StscEntry {
        first_chunk: be_value(p, 8 + 12 * i, 4) as u32,
        sample_per_chunk: be_value(p, 12 + 12 * i, 4) as u32,
        sample_description_index: be_value(p, 16 + 12 * i, 4) as u32,
    }
}

/// What decoding the `stsc` box at the start of `s` gives: the entries and
/// the box size; `None` when the entries run past the payload or an entry
/// has `first_chunk` or `sample_description_index` 0.
pub open spec fn stsc_decode_spec(s: Seq<u8>) -> Option<(Seq<StscEntry>, nat)> {
    match box_payload_of(s, stsc_code()) {
        None => None,
        Some((p, size)) => if p.len() < 8 || 8 + 12 * be_value(p, 4, 4) > p.len() {
            None
        } else {
            let e = Seq::new(be_value(p, 4, 4), |i: int| stsc_entry_at(p, i));
            if (forall|i: int|
                0 <= i < e.len() ==> (#[trigger] e[i]).first_chunk != 0 && e[i].sample_description_index
                    != 0) {
                Some((e, size))
            } else {
                None
            }
        },
    }
}

impl StscBox {
    /// Encodes the box.
    pub fn encode(&self) -> (r: Vec<u8>)
        requires
            self.entries@.len() <= u32::MAX,
            12 * self.entries@.len() + 64 <= usize::MAX,
        ensures
            r@ == stsc_box_bytes(self.entries@),
    {
        let ghost recs = self.entries@.map_values(|e: StscEntry| stsc_record(e));
        let mut payload: Vec<u8> = Vec::new();
        put_be(&mut payload, 0, 4);
        put_be(&mut payload, self.entries.len() as u64, 4);
        proof {
            crate::codec::lemma_be_bytes_len(0, 4);
            crate::codec::lemma_be_bytes_len(self.entries@.len() as nat, 4);
            assert(recs.take(0) =~= Seq::<Seq<u8>>::empty());
        }
        let ghost head = payload@;
        let mut i: usize = 0;
        while i < self.entries.len()
            invariant
                recs == self.entries@.map_values(|e: StscEntry| stsc_record(e)),
                i <= self.entries@.len(),
                payload@ == head + concat_records(recs.take(i as int)),
                payload@.len() == 8 + 12 * i,
                12 * self.entries@.len() + 64 <= usize::MAX,
            decreases self.entries@.len() - i,
        {
            let e = self.entries[i];
            put_be(&mut payload, e.first_chunk as u64, 4);
            put_be(&mut payload, e.sample_per_chunk as u64, 4);
            put_be(&mut payload, e.sample_description_index as u64, 4);
            proof {
                lemma_concat_records_push(recs, i as int);
                crate::codec::lemma_be_bytes_len(e.first_chunk as nat, 4);
                crate::codec::lemma_be_bytes_len(e.sample_per_chunk as nat, 4);
                crate::codec::lemma_be_bytes_len(e.sample_description_index as nat, 4);
                assert(payload@ =~= head + concat_records(recs.take(i + 1)));
            }
            i += 1;
        }
        proof {
            assert(recs.take(i as int) =~= recs);
        }
        let mut out: Vec<u8> = Vec::new();
        put_box(&mut out, &BoxType::Normal([0x73u8, 0x74, 0x73, 0x63]), payload.as_slice());
        proof {
            assert(out@ =~= stsc_box_bytes(self.entries@));
        }
        out
    }

    /// Decodes the `stsc` box at the start of `buf`, returning it and its size.
    pub fn decode(buf: &[u8]) -> (r: Result<(StscBox, usize), Error>)
        ensures
            r is Ok <==> stsc_decode_spec(buf@) is Some,
            r matches Ok((b, n)) ==> stsc_decode_spec(buf@) == Some((b.entries@, n as nat)),
            r matches Err(e) ==> e.kind == ErrorKind::InvalidData,
    {
        proof {
            assert([0x73u8, 0x74, 0x73, 0x63]@ =~= stsc_code());
        }
        let (start, end) = box_payload_range(buf, [0x73u8, 0x74, 0x73, 0x63])?;
        let payload = &buf[start..end];
        let count = read_be(payload, 4, 4)?;
        let ghost p = payload@;
        if payload.len() < 8 || (payload.len() as u64 - 8) / 12 < count {
            return Err(Error::invalid_data("stsc entries exceed the box"));
        }
        let count = count as usize;
        let mut entries: Vec<StscEntry> = Vec::new();
        let mut i: usize = 0;
        while i < count
            invariant
                p == payload@,
                p.len() <= usize::MAX,
                8 + 12 * count <= p.len(),
                count == be_value(p, 4, 4),
                box_payload_of(buf@, stsc_code()) == Some((p, end as nat)),
                i <= count,
                entries@.len() == i,
                forall|k: int| 0 <= k < i ==> #[trigger] entries@[k] == stsc_entry_at(p, k),
                forall|k: int|
                    0 <= k < i ==> (#[trigger] entries@[k]).first_chunk != 0
                        && entries@[k].sample_description_index != 0,
            decreases count - i,
        {
            let at = 8 + 12 * i;
            let first_chunk = read_be(payload, at, 4)? as u32;
            let sample_per_chunk = read_be(payload, at + 4, 4)? as u32;
            let sample_description_index = read_be(payload, at + 8, 4)? as u32;
            let e = StscEntry { first_chunk, sample_per_chunk, sample_description_index };
            proof {
                assert(e == stsc_entry_at(p, i as int));
            }
            if first_chunk == 0 || sample_description_index == 0 {
                proof {
                    let all = Seq::new(be_value(p, 4, 4), |k: int| stsc_entry_at(p, k));
                    assert(all[i as int] == e);
                }
                return Err(Error::invalid_data("stsc first_chunk and sample_description_index must not be 0"));
            }
            entries.push(e);
            i += 1;
        }
        proof {
            let want = Seq::new(be_value(p, 4, 4), |k: int| stsc_entry_at(p, k));
            assert(entries@ =~= want);
        }
        Ok((StscBox { entries }, end))
    }
}

/// Decoding an encoded `stsc` box gives back its entries and size, when no
/// entry has `first_chunk` or `sample_description_index` 0.
pub proof fn lemma_stsc_codec_roundtrip(entries: Seq<StscEntry>)
    requires
        entries.len() <= u32::MAX,
        forall|i: int|
            0 <= i < entries.len() ==> (#[trigger] entries[i]).first_chunk != 0
                && entries[i].sample_description_index != 0,
    ensures
        stsc_decode_spec(stsc_box_bytes(entries)) == Some((entries, stsc_box_bytes(entries).len())),
{
    let recs = entries.map_values(|e: StscEntry| stsc_record(e));
    let body = concat_records(recs);
    lemma_pow256_values();
    assert forall|i: int| 0 <= i < recs.len() implies (#[trigger] recs[i]).len() == 12 by {
        crate::codec::lemma_be_bytes_len(entries[i].first_chunk as nat, 4);
        crate::codec::lemma_be_bytes_len(entries[i].sample_per_chunk as nat, 4);
        crate::codec::lemma_be_bytes_len(entries[i].sample_description_index as nat, 4);
    }
    lemma_concat_records(recs, 12);
    lemma_be_roundtrip(0, 4);
    lemma_be_roundtrip(entries.len(), 4);
    let h0 = be_bytes(0, 4);
    let h1 = be_bytes(entries.len(), 4);
    let p = full_box_v0() + be_bytes(entries.len(), 4) + body;
    assert(p =~= (h0 + h1) + body);
    assert(be_value(p, 4, 4) == entries.len()) by {
        lemma_be_value_prefix(h0 + h1, body, 4, 4);
        lemma_be_value_suffix(h0, h1, 0, 4);
    }
    assert([0x73u8, 0x74, 0x73, 0x63]@ =~= stsc_code());
    lemma_box_bytes_header([0x73u8, 0x74, 0x73, 0x63], p);
    assert forall|i: int| 0 <= i < entries.len() implies #[trigger] stsc_entry_at(p, i) == entries[i] by {
        let e = entries[i];
        let a = be_bytes(e.first_chunk as nat, 4);
        let b = be_bytes(e.sample_per_chunk as nat, 4);
        let c = be_bytes(e.sample_description_index as nat, 4);
        let r = recs[i];
        assert(r == a + b + c);
        lemma_be_roundtrip(e.first_chunk as nat, 4);
        lemma_be_roundtrip(e.sample_per_chunk as nat, 4);
        lemma_be_roundtrip(e.sample_description_index as nat, 4);
        assert forall|j: int| 0 <= j < 12 implies p[8 + 12 * i + j] == r[j] by {
            assert(body[i * 12 + j] == recs[i][j]);
            assert(12 * i + j == i * 12 + j);
        }
        lemma_be_value_within(p, r, 8 + 12 * i, 0, 4);
        lemma_be_value_within(p, r, 8 + 12 * i, 4, 4);
        lemma_be_value_within(p, r, 8 + 12 * i, 8, 4);
        assert(r =~= a + (b + c));
        lemma_be_value_prefix(a, b + c, 0, 4);
        lemma_be_value_suffix(a, b + c, 0, 4);
        lemma_be_value_prefix(b, c, 0, 4);
        assert(r =~= (a + b) + c);
        lemma_be_value_suffix(a + b, c, 0, 4);
    }
    let s = stsc_box_bytes(entries);
    let decoded = Seq::new(be_value(p, 4, 4), |k: int| stsc_entry_at(p, k));
    assert(decoded =~= entries);
}

} // verus!

verus! {

/// Version and flags of a FullBox with flags 0.
pub open spec fn full_box_header(version: u8) -> Seq<u8> {
    seq![version, 0u8, 0u8, 0u8]
}

/// The `n` byte two's complement pattern of `v`.
pub open spec fn twos(v: int, n: nat) -> nat {
    if v < 0 {
        (v + crate::codec::pow256(n)) as nat
    } else {
        v as nat
    }
}

/// The value of the `n` byte two's complement pattern `u`.
pub open spec fn signed_of(u: nat, n: nat) -> int {
    if 2 * u >= crate::codec::pow256(n) {
        u - crate::codec::pow256(n)
    } else {
        u as int
    }
}

/// Appends a FullBox version and flags 0.
pub(crate) fn put_full_box_header(out: &mut Vec<u8>, version: u8)
    ensures
        final(out)@ == old(out)@ + full_box_header(version),
{
    out.push(version);
    out.push(0);
    out.push(0);
    out.push(0);
    proof {
        assert(out@ =~= old(out)@ + full_box_header(version));
    }
}

/// The two's complement pattern of a value in 32 bit range (signed or unsigned).
pub(crate) fn twos32(v: i64) -> (r: u64)
    requires
        i32::MIN <= v <= u32::MAX,
    ensures
        r == twos(v as int, 4),
        r < crate::codec::pow256(4),
{
    proof {
        lemma_pow256_values();
    }
    if v < 0 {
        (v + 0x1_0000_0000) as u64
    } else {
        v as u64
    }
}

/// The signed value of a 32 bit pattern.
pub(crate) fn signed32(u: u64) -> (r: i64)
    requires
        u < 0x1_0000_0000,
    ensures
        r == signed_of(u as nat, 4),
        i32::MIN <= r <= i32::MAX,
{
    proof {
        lemma_pow256_values();
    }
    if u >= 0x8000_0000 {
        u as i64 - 0x1_0000_0000
    } else {
        u as i64
    }
}

/// Type code of `ctts`.
pub open spec fn ctts_code() -> Seq<u8> {
    seq![0x63u8, 0x74, 0x74, 0x73]
}

/// Whether a `ctts` entry of `version` can hold the offset `v`: version 0
/// holds unsigned 32 bit offsets, version 1 signed ones.
pub open spec fn ctts_offset_fits(version: u8, v: i64) -> bool {
    if version == 1 {
        i32::MIN <= v <= i32::MAX
    } else {
        0 <= v <= u32::MAX
    }
}

/// Whether the box can be encoded: version 0 or 1 and every offset fits it.
pub open spec fn ctts_encodable(version: u8, entries: Seq<CttsEntry>) -> bool {
    &&& version <= 1
    &&& forall|i: int| 0 <= i < entries.len() ==> ctts_offset_fits(version, (#[trigger] entries[i]).sample_offset)
}

/// The record of one `ctts` entry.
pub open spec fn ctts_record(e: CttsEntry) -> Seq<u8> {
    be_bytes(e.sample_count as nat, 4) + be_bytes(twos(e.sample_offset as int, 4), 4)
}

/// Payload of a `ctts` box.
pub open spec fn ctts_payload(version: u8, entries: Seq<CttsEntry>) -> Seq<u8> {
    full_box_header(version) + be_bytes(entries.len(), 4) + concat_records(
        entries.map_values(|e: CttsEntry| ctts_record(e)),
    )
}

/// A `ctts` box of the entries.
pub open spec fn ctts_box_bytes(version: u8, entries: Seq<CttsEntry>) -> Seq<u8> {
    box_bytes(BoxType::Normal([0x63u8, 0x74, 0x74, 0x73]), ctts_payload(version, entries))
}

/// The `ctts` entry recorded at index `i` of payload `p` of `version`.
pub open spec fn ctts_entry_at(p: Seq<u8>, version: u8, i: int) -> CttsEntry {
    let raw = be_value(p, 12 + 8 * i, 4);
    CttsEntry {
        sample_count: be_value(p, 8 + 8 * i, 4) as u32,
        sample_offset: (if version == 1 {
            signed_of(raw, 4)
        } else {
            raw as int
        }) as i64,
    }
}

/// What decoding the `ctts` box at the start of `s` gives: version,
/// entries and box size; `None` when it is not a `ctts` box, its version
/// exceeds 1 or its entries run past the payload.
pub open spec fn ctts_decode_spec(s: Seq<u8>) -> Option<(u8, Seq<CttsEntry>, nat)> {
    match box_payload_of(s, ctts_code()) {
        None => None,
        Some((p, size)) => if p.len() < 8 || p[0] > 1 || 8 + 8 * be_value(p, 4, 4) > p.len() {
            None
        } else {
            Some((p[0], Seq::new(be_value(p, 4, 4), |i: int| ctts_entry_at(p, p[0], i)), size))
        },
    }
}

impl CttsBox {
    /// Encodes the box. Fails with [`ErrorKind::InvalidInput`] when the
    /// version exceeds 1 or an offset does not fit the version (negative in
    /// version 0, outside the 32 bit range).
    pub fn encode(&self) -> (r: Result<Vec<u8>, Error>)
        requires
            self.entries@.len() <= u32::MAX,
            8 * self.entries@.len() + 64 <= usize::MAX,
        ensures
            r is Ok <==> ctts_encodable(self.version, self.entries@),
            r matches Ok(v) ==> v@ == ctts_box_bytes(self.version, self.entries@),
            r matches Err(e) ==> e.kind == ErrorKind::InvalidInput,
    {
        let version = self.version;
        if version > 1 {
            return Err(Error::invalid_input("Invalid ctts box version"));
        }
        let ghost recs = self.entries@.map_values(|e: CttsEntry| ctts_record(e));
        let mut payload: Vec<u8> = Vec::new();
        put_full_box_header(&mut payload, version);
        put_be(&mut payload, self.entries.len() as u64, 4);
        proof {
            crate::codec::lemma_be_bytes_len(self.entries@.len() as nat, 4);
            assert(recs.take(0) =~= Seq::<Seq<u8>>::empty());
        }
        let ghost head = payload@;
        let mut i: usize = 0;
        while i < self.entries.len()
            invariant
                version == self.version,
                version <= 1,
                recs == self.entries@.map_values(|e: CttsEntry| ctts_record(e)),
                i <= self.entries@.len(),
                payload@ == head + concat_records(recs.take(i as int)),
                payload@.len() == 8 + 8 * i,
                8 * self.entries@.len() + 64 <= usize::MAX,
                forall|k: int| 0 <= k < i ==> ctts_offset_fits(version, (#[trigger] self.entries@[k]).sample_offset),
            decreases self.entries@.len() - i,
        {
            let e = self.entries[i];
            let fits = if version == 1 {
                -0x8000_0000i64 <= e.sample_offset && e.sample_offset <= 0x7fff_ffffi64
            } else {
                0 <= e.sample_offset && e.sample_offset <= 0xffff_ffffi64
            };
            if !fits {
                if version == 1 {
                    return Err(Error::invalid_input("ctts version 1 requires sample_offset to be in i32 range"));
                } else {
                    return Err(Error::invalid_input("ctts version 0 requires non-negative sample_offset"));
                }
            }
            put_be(&mut payload, e.sample_count as u64, 4);
            let pattern = twos32(e.sample_offset);
            put_be(&mut payload, pattern, 4);
            proof {
                lemma_concat_records_push(recs, i as int);
                crate::codec::lemma_be_bytes_len(e.sample_count as nat, 4);
                crate::codec::lemma_be_bytes_len(pattern as nat, 4);
                assert(payload@ =~= head + concat_records(recs.take(i + 1)));
            }
            i += 1;
        }
        proof {
            assert(recs.take(i as int) =~= recs);
        }
        let mut out: Vec<u8> = Vec::new();
        put_box(&mut out, &BoxType::Normal([0x63u8, 0x74, 0x74, 0x73]), payload.as_slice());
        proof {
            assert(out@ =~= ctts_box_bytes(self.version, self.entries@));
        }
        Ok(out)
    }

    /// Decodes the `ctts` box at the start of `buf`, returning it and its size.
    pub fn decode(buf: &[u8]) -> (r: Result<(CttsBox, usize), Error>)
        ensures
            r is Ok <==> ctts_decode_spec(buf@) is Some,
            r matches Ok((b, n)) ==> ctts_decode_spec(buf@) == Some((b.version, b.entries@, n as nat)),
            r matches Err(e) ==> e.kind == ErrorKind::InvalidData,
    {
        proof {
            assert([0x63u8, 0x74, 0x74, 0x73]@ =~= ctts_code());
        }
        let (start, end) = box_payload_range(buf, [0x63u8, 0x74, 0x74, 0x73])?;
        let payload = &buf[start..end];
        let ghost p = payload@;
        if payload.len() < 8 {
            return Err(Error::invalid_data("ctts box is too short"));
        }
        let version = payload[0];
        if version > 1 {
            return Err(Error::invalid_data("Invalid ctts box version"));
        }
        let count = read_be(payload, 4, 4)?;
        if (payload.len() as u64 - 8) / 8 < count {
            return Err(Error::invalid_data("ctts entries exceed the box"));
        }
        let count = count as usize;
        let mut entries: Vec<CttsEntry> = Vec::new();
        let mut i: usize = 0;
        while i < count
            invariant
                p == payload@,
                p.len() <= usize::MAX,
                8 + 8 * count <= p.len(),
                count == be_value(p, 4, 4),
                version == p[0],
                i <= count,
                entries@.len() == i,
                forall|k: int| 0 <= k < i ==> #[trigger] entries@[k] == ctts_entry_at(p, version, k),
            decreases count - i,
        {
            let at = 8 + 8 * i;
            let sample_count = read_be(payload, at, 4)? as u32;
            let raw = read_be(payload, at + 4, 4)?;
            proof {
                lemma_pow256_values();
            }
            let sample_offset = if version == 1 {
                signed32(raw)
            } else {
                raw as i64
            };
            let e = CttsEntry { sample_count, sample_offset };
            proof {
                assert(e == ctts_entry_at(p, version, i as int));
            }
            entries.push(e);
            i += 1;
        }
        proof {
            let want = Seq::new(be_value(p, 4, 4), |k: int| ctts_entry_at(p, version, k));
            assert(entries@ =~= want);
        }
        Ok((CttsBox { version, entries }, end))
    }
}

/// Decoding an encoded `ctts` box gives back its version, entries and size.
pub proof fn lemma_ctts_codec_roundtrip(version: u8, entries: Seq<CttsEntry>)
    requires
        entries.len() <= u32::MAX,
        ctts_encodable(version, entries),
    ensures
        ctts_decode_spec(ctts_box_bytes(version, entries)) == Some(
            (version, entries, ctts_box_bytes(version, entries).len()),
        ),
{
    let recs = entries.map_values(|e: CttsEntry| ctts_record(e));
    let body = concat_records(recs);
    lemma_pow256_values();
    assert forall|i: int| 0 <= i < recs.len() implies (#[trigger] recs[i]).len() == 8 by {
        crate::codec::lemma_be_bytes_len(entries[i].sample_count as nat, 4);
        crate::codec::lemma_be_bytes_len(twos(entries[i].sample_offset as int, 4), 4);
    }
    lemma_concat_records(recs, 8);
    lemma_be_roundtrip(entries.len(), 4);
    let h0 = full_box_header(version);
    let h1 = be_bytes(entries.len(), 4);
    let p = ctts_payload(version, entries);
    assert(p =~= (h0 + h1) + body);
    assert(be_value(p, 4, 4) == entries.len()) by {
        lemma_be_value_prefix(h0 + h1, body, 4, 4);
        lemma_be_value_suffix(h0, h1, 0, 4);
    }
    assert(p[0] == version);
    assert([0x63u8, 0x74, 0x74, 0x73]@ =~= ctts_code());
    lemma_box_bytes_header([0x63u8, 0x74, 0x74, 0x73], p);
    assert forall|i: int| 0 <= i < entries.len() implies #[trigger] ctts_entry_at(p, version, i) == entries[i] by {
        let e = entries[i];
        let t = twos(e.sample_offset as int, 4);
        let a = be_bytes(e.sample_count as nat, 4);
        let b = be_bytes(t, 4);
        let r = recs[i];
        assert(r == a + b);
        assert(ctts_offset_fits(version, e.sample_offset));
        lemma_be_roundtrip(e.sample_count as nat, 4);
        lemma_be_roundtrip(t, 4);
        assert forall|j: int| 0 <= j < 8 implies p[8 + 8 * i + j] == r[j] by {
            assert(body[i * 8 + j] == recs[i][j]);
            assert(8 * i + j == i * 8 + j);
        }
        lemma_be_value_within(p, r, 8 + 8 * i, 0, 4);
        lemma_be_value_within(p, r, 8 + 8 * i, 4, 4);
        lemma_be_value_prefix(a, b, 0, 4);
        lemma_be_value_suffix(a, b, 0, 4);
    }
    let decoded = Seq::new(be_value(p, 4, 4), |k: int| ctts_entry_at(p, version, k));
    assert(decoded =~= entries);
}

} // verus!

verus! {

/// A value in `-pow256(n)/2 .. pow256(n)/2` survives the trip through its
/// two's complement pattern.
pub proof fn lemma_twos_roundtrip(v: int, n: nat)
    requires
        -crate::codec::pow256(n) <= 2 * v < crate::codec::pow256(n),
    ensures
        twos(v, n) < crate::codec::pow256(n),
        signed_of(twos(v, n), n) == v,
{
}

/// The two's complement pattern of a 64 bit value.
pub(crate) fn twos64(v: i64) -> (r: u64)
    ensures
        r == twos(v as int, 8),
{
    proof {
        lemma_pow256_values();
    }
    if v < 0 {
        (v as i128 + 0x1_0000_0000_0000_0000i128) as u64
    } else {
        v as u64
    }
}

/// The signed value of a 64 bit pattern.
pub(crate) fn signed64(u: u64) -> (r: i64)
    ensures
        r == signed_of(u as nat, 8),
{
    proof {
        lemma_pow256_values();
    }
    if u >= 0x8000_0000_0000_0000 {
        (u as i128 - 0x1_0000_0000_0000_0000i128) as i64
    } else {
        u as i64
    }
}

/// Type code of `cslg`.
pub open spec fn cslg_code() -> Seq<u8> {
    seq![0x63u8, 0x73, 0x6c, 0x67]
}

/// The five fields of a `cslg` box in their order in the box.
pub open spec fn cslg_fields(b: CslgBox) -> Seq<i64> {
    seq![
        b.composition_to_dts_shift,
        b.least_decode_to_display_delta,
        b.greatest_decode_to_display_delta,
        b.composition_start_time,
        b.composition_end_time,
    ]
}

/// Field width of a `cslg` box of `version`: 4 bytes in version 0, 8 in version 1.
pub open spec fn cslg_width(version: u8) -> nat {
    if version == 1 {
        8
    } else {
        4
    }
}

/// Whether the box can be encoded: version 0 or 1, and in version 0 every
/// field in the signed 32 bit range.
pub open spec fn cslg_encodable(b: CslgBox) -> bool {
    &&& b.version <= 1
    &&& b.version == 0 ==> forall|i: int| 0 <= i < 5 ==> i32::MIN <= #[trigger] cslg_fields(b)[i] <= i32::MAX
}

/// The two's complement patterns of the fields.
pub open spec fn cslg_patterns(b: CslgBox) -> Seq<nat> {
    cslg_fields(b).map_values(|f: i64| twos(f as int, cslg_width(b.version)))
}

/// A `cslg` box of `b`.
pub open spec fn cslg_box_bytes(b: CslgBox) -> Seq<u8> {
    box_bytes(
        BoxType::Normal([0x63u8, 0x73, 0x6c, 0x67]),
        full_box_header(b.version) + be_list_bytes(cslg_patterns(b), cslg_width(b.version)),
    )
}

/// What decoding the `cslg` box at the start of `s` gives: the box and its
/// size; `None` when it is not a `cslg` box, its version exceeds 1 or its
/// fields run past the payload.
pub open spec fn cslg_decode_spec(s: Seq<u8>) -> Option<(CslgBox, nat)> {
    match box_payload_of(s, cslg_code()) {
        None => None,
        Some((p, size)) => if p.len() < 4 || p[0] > 1 || 4 + 5 * cslg_width(p[0]) > p.len() {
            None
        } else {
            let w = cslg_width(p[0]);
            let v = crate::codec::be_list_at(p, 4, 5, w);
            Some(
                (
                    CslgBox {
                        version: p[0],
                        composition_to_dts_shift: signed_of(v[0], w) as i64,
                        least_decode_to_display_delta: signed_of(v[1], w) as i64,
                        greatest_decode_to_display_delta: signed_of(v[2], w) as i64,
                        composition_start_time: signed_of(v[3], w) as i64,
                        composition_end_time: signed_of(v[4], w) as i64,
                    },
                    size,
                ),
            )
        },
    }
}

/// Whether a 64 bit value lies in the signed 32 bit range.
fn fits_i32(v: i64) -> (r: bool)
    ensures
        r == (i32::MIN <= v <= i32::MAX),
{
    -0x8000_0000i64 <= v && v <= 0x7fff_ffffi64
}

impl CslgBox {
    /// Encodes the box. Fails with [`ErrorKind::InvalidInput`] when the
    /// version exceeds 1, or in version 0 when a field is outside the signed
    /// 32 bit range.
    pub fn encode(&self) -> (r: Result<Vec<u8>, Error>)
        ensures
            r is Ok <==> cslg_encodable(*self),
            r matches Ok(v) ==> v@ == cslg_box_bytes(*self),
            r matches Err(e) ==> e.kind == ErrorKind::InvalidInput,
    {
        let version = self.version;
        if version > 1 {
            return Err(Error::invalid_input("Invalid cslg box version"));
        }
        if version == 0 {
            if !fits_i32(self.composition_to_dts_shift) {
                proof {
                    assert(cslg_fields(*self)[0] == self.composition_to_dts_shift);
                }
                return Err(Error::invalid_input("cslg version 0 requires composition_to_dts_shift to be in i32 range"));
            }
            if !fits_i32(self.least_decode_to_display_delta) {
                proof {
                    assert(cslg_fields(*self)[1] == self.least_decode_to_display_delta);
                }
                return Err(Error::invalid_input("cslg version 0 requires least_decode_to_display_delta to be in i32 range"));
            }
            if !fits_i32(self.greatest_decode_to_display_delta) {
                proof {
                    assert(cslg_fields(*self)[2] == self.greatest_decode_to_display_delta);
                }
                return Err(Error::invalid_input("cslg version 0 requires greatest_decode_to_display_delta to be in i32 range"));
            }
            if !fits_i32(self.composition_start_time) {
                proof {
                    assert(cslg_fields(*self)[3] == self.composition_start_time);
                }
                return Err(Error::invalid_input("cslg version 0 requires composition_start_time to be in i32 range"));
            }
            if !fits_i32(self.composition_end_time) {
                proof {
                    assert(cslg_fields(*self)[4] == self.composition_end_time);
                }
                return Err(Error::invalid_input("cslg version 0 requires composition_end_time to be in i32 range"));
            }
        }
        proof {
            assert(cslg_encodable(*self)) by {
                if version == 0 {
                    assert forall|i: int| 0 <= i < 5 implies i32::MIN <= #[trigger] cslg_fields(*self)[i] <= i32::MAX by {}
                }
            }
        }
        let fields = [
            self.composition_to_dts_shift,
            self.least_decode_to_display_delta,
            self.greatest_decode_to_display_delta,
            self.composition_start_time,
            self.composition_end_time,
        ];
        proof {
            assert(fields@ =~= cslg_fields(*self));
        }
        let w: usize = if version == 1 {
            8
        } else {
            4
        };
        let ghost pats = cslg_patterns(*self);
        let ghost recs = pats.map_values(|v: nat| be_bytes(v, w as nat));
        let mut payload: Vec<u8> = Vec::new();
        put_full_box_header(&mut payload, version);
        proof {
            assert(recs.take(0) =~= Seq::<Seq<u8>>::empty());
        }
        let ghost head = payload@;
        let mut i: usize = 0;
        while i < 5
            invariant
                version == self.version,
                cslg_encodable(*self),
                fields@ == cslg_fields(*self),
                w == cslg_width(version),
                pats == cslg_patterns(*self),
                recs == pats.map_values(|v: nat| be_bytes(v, w as nat)),
                i <= 5,
                payload@ == head + concat_records(recs.take(i as int)),
                payload@.len() == 4 + w * i,
                head.len() == 4,
            decreases 5 - i,
        {
            let f = fields[i];
            let pattern = if version == 1 {
                twos64(f)
            } else {
                proof {
                    assert(i32::MIN <= cslg_fields(*self)[i as int] <= i32::MAX);
                }
                twos32(f)
            };
            put_be(&mut payload, pattern, w);
            proof {
                crate::codec::lemma_be_bytes_len(pattern as nat, w as nat);
                lemma_concat_records_push(recs, i as int);
                assert(payload@ =~= head + concat_records(recs.take(i + 1)));
            }
            i += 1;
        }
        proof {
            assert(recs.take(5) =~= recs);
        }
        let mut out: Vec<u8> = Vec::new();
        put_box(&mut out, &BoxType::Normal([0x63u8, 0x73, 0x6c, 0x67]), payload.as_slice());
        Ok(out)
    }

    /// Decodes the `cslg` box at the start of `buf`, returning it and its size.
    pub fn decode(buf: &[u8]) -> (r: Result<(CslgBox, usize), Error>)
        ensures
            r is Ok <==> cslg_decode_spec(buf@) is Some,
            r matches Ok((b, n)) ==> cslg_decode_spec(buf@) == Some((b, n as nat)),
            r matches Err(e) ==> e.kind == ErrorKind::InvalidData,
    {
        proof {
            assert([0x63u8, 0x73, 0x6c, 0x67]@ =~= cslg_code());
        }
        let (start, end) = box_payload_range(buf, [0x63u8, 0x73, 0x6c, 0x67])?;
        let payload = &buf[start..end];
        if payload.len() < 4 {
            return Err(Error::invalid_data("cslg box is too short"));
        }
        let version = payload[0];
        if version > 1 {
            return Err(Error::invalid_data("Invalid cslg box version"));
        }
        let w: usize = if version == 1 {
            8
        } else {
            4
        };
        let vals = crate::codec::read_be_list(payload, 4, 5, w)?;
        proof {
            lemma_pow256_values();
            assert(u64_vals(vals@).len() == 5);
            assert(vals@.len() == 5);
            assert(u64_vals(vals@)[0] == vals@[0] as nat);
            assert(u64_vals(vals@)[1] == vals@[1] as nat);
            assert(u64_vals(vals@)[2] == vals@[2] as nat);
            assert(u64_vals(vals@)[3] == vals@[3] as nat);
            assert(u64_vals(vals@)[4] == vals@[4] as nat);
        }
        let b = if version == 1 {
            CslgBox {
                version,
                composition_to_dts_shift: signed64(vals[0]),
                least_decode_to_display_delta: signed64(vals[1]),
                greatest_decode_to_display_delta: signed64(vals[2]),
                composition_start_time: signed64(vals[3]),
                composition_end_time: signed64(vals[4]),
            }
        } else {
            proof {
                let p = payload@;
                assert forall|k: int| 0 <= k < 5 implies #[trigger] vals@[k] < 0x1_0000_0000 by {
                    assert(u64_vals(vals@)[k] == vals@[k] as nat);
                    lemma_be_value_bound(p, 4 + 4 * k, 4);
                }
            }
            CslgBox {
                version,
                composition_to_dts_shift: signed32(vals[0]),
                least_decode_to_display_delta: signed32(vals[1]),
                greatest_decode_to_display_delta: signed32(vals[2]),
                composition_start_time: signed32(vals[3]),
                composition_end_time: signed32(vals[4]),
            }
        };
        Ok((b, end))
    }
}

/// Decoding an encoded `cslg` box gives back the box and its size.
pub proof fn lemma_cslg_codec_roundtrip(b: CslgBox)
    requires
        cslg_encodable(b),
    ensures
        cslg_decode_spec(cslg_box_bytes(b)) == Some((b, cslg_box_bytes(b).len())),
{
    lemma_pow256_values();
    let w = cslg_width(b.version);
    let pats = cslg_patterns(b);
    let fs = cslg_fields(b);
    assert forall|i: int| 0 <= i < 5 implies #[trigger] pats[i] < crate::codec::pow256(w)
        && signed_of(pats[i], w) == fs[i] by {
        lemma_twos_roundtrip(fs[i] as int, w);
    }
    let h = full_box_header(b.version);
    crate::codec::lemma_be_list_roundtrip(h, pats, w, Seq::empty());
    let p = h + crate::codec::be_list_bytes(pats, w);
    assert(p + Seq::<u8>::empty() =~= p);
    assert(p[0] == b.version);
    assert([0x63u8, 0x73, 0x6c, 0x67]@ =~= cslg_code());
    lemma_box_bytes_header([0x63u8, 0x73, 0x6c, 0x67], p);
    let v = crate::codec::be_list_at(p, 4, 5, w);
    assert(v == pats);
    assert(signed_of(v[0], w) == fs[0]);
    assert(signed_of(v[1], w) == fs[1]);
    assert(signed_of(v[2], w) == fs[2]);
    assert(signed_of(v[3], w) == fs[3]);
    assert(signed_of(v[4], w) == fs[4]);
}

/// Type code of `sdtp`.
pub open spec fn sdtp_code() -> Seq<u8> {
    seq![0x73u8, 0x64, 0x74, 0x70]
}

/// The flag bytes of the entries.
pub open spec fn sdtp_bytes(entries: Seq<SdtpSampleFlags>) -> Seq<u8> {
    entries.map_values(|f: SdtpSampleFlags| f.0)
}

/// An `sdtp` box (version 0) of the entries: one byte per sample.
pub open spec fn sdtp_box_bytes(entries: Seq<SdtpSampleFlags>) -> Seq<u8> {
    box_bytes(BoxType::Normal([0x73u8, 0x64, 0x74, 0x70]), full_box_v0() + sdtp_bytes(entries))
}

/// What decoding the `sdtp` box at the start of `s` gives: one entry per
/// payload byte after the version and flags, and the box size; `None` when
/// it is not an `sdtp` box or its version is not 0.
pub open spec fn sdtp_decode_spec(s: Seq<u8>) -> Option<(Seq<SdtpSampleFlags>, nat)> {
    match box_payload_of(s, sdtp_code()) {
        None => None,
        Some((p, size)) => if p.len() < 4 || p[0] != 0 {
            None
        } else {
            Some((p.subrange(4, p.len() as int).map_values(|x: u8| SdtpSampleFlags(x)), size))
        },
    }
}

impl SdtpBox {
    /// Encodes the box.
    pub fn encode(&self) -> (r: Vec<u8>)
        requires
            self.entries@.len() + 64 <= usize::MAX,
        ensures
            r@ == sdtp_box_bytes(self.entries@),
    {
        let mut payload: Vec<u8> = Vec::new();
        put_full_box_header(&mut payload, 0);
        let ghost head = payload@;
        let mut i: usize = 0;
        while i < self.entries.len()
            invariant
                i <= self.entries@.len(),
                payload@ == head + sdtp_bytes(self.entries@.take(i as int)),
            decreases self.entries@.len() - i,
        {
            payload.push(self.entries[i].0);
            proof {
                assert(sdtp_bytes(self.entries@.take(i + 1)) =~= sdtp_bytes(self.entries@.take(i as int)).push(
                    self.entries@[i as int].0,
                ));
                assert(payload@ =~= head + sdtp_bytes(self.entries@.take(i + 1)));
            }
            i += 1;
        }
        proof {
            assert(self.entries@.take(i as int) =~= self.entries@);
            assert(full_box_header(0) =~= full_box_v0()) by {
                lemma_pow256_values();
                crate::codec::lemma_be_bytes_len(0, 4);
                reveal_with_fuel(be_bytes, 5);
            }
        }
        let mut out: Vec<u8> = Vec::new();
        put_box(&mut out, &BoxType::Normal([0x73u8, 0x64, 0x74, 0x70]), payload.as_slice());
        out
    }

    /// Decodes the `sdtp` box at the start of `buf`, returning it and its size.
    pub fn decode(buf: &[u8]) -> (r: Result<(SdtpBox, usize), Error>)
        ensures
            r is Ok <==> sdtp_decode_spec(buf@) is Some,
            r matches Ok((b, n)) ==> sdtp_decode_spec(buf@) == Some((b.entries@, n as nat)),
            r matches Err(e) ==> e.kind == ErrorKind::InvalidData,
    {
        proof {
            assert([0x73u8, 0x64, 0x74, 0x70]@ =~= sdtp_code());
        }
        let (start, end) = box_payload_range(buf, [0x73u8, 0x64, 0x74, 0x70])?;
        let payload = &buf[start..end];
        if payload.len() < 4 {
            return Err(Error::invalid_data("sdtp box is too short"));
        }
        if payload[0] != 0 {
            return Err(Error::invalid_data("Invalid sdtp box version"));
        }
        let ghost p = payload@;
        let mut entries: Vec<SdtpSampleFlags> = Vec::new();
        let mut i: usize = 4;
        while i < payload.len()
            invariant
                p == payload@,
                4 <= i <= p.len(),
                entries@ == p.subrange(4, i as int).map_values(|x: u8| SdtpSampleFlags(x)),
            decreases p.len() - i,
        {
            entries.push(SdtpSampleFlags(payload[i]));
            proof {
                assert(p.subrange(4, i + 1).map_values(|x: u8| SdtpSampleFlags(x)) =~= p.subrange(
                    4,
                    i as int,
                ).map_values(|x: u8| SdtpSampleFlags(x)).push(SdtpSampleFlags(p[i as int])));
            }
            i += 1;
        }
        Ok((SdtpBox { entries }, end))
    }
}

/// Decoding an encoded `sdtp` box gives back its entries and size.
pub proof fn lemma_sdtp_codec_roundtrip(entries: Seq<SdtpSampleFlags>)
    requires
        entries.len() <= u32::MAX,
    ensures
        sdtp_decode_spec(sdtp_box_bytes(entries)) == Some((entries, sdtp_box_bytes(entries).len())),
{
    lemma_pow256_values();
    crate::codec::lemma_be_bytes_len(0, 4);
    reveal_with_fuel(be_bytes, 5);
    let p = full_box_v0() + sdtp_bytes(entries);
    assert([0x73u8, 0x64, 0x74, 0x70]@ =~= sdtp_code());
    lemma_box_bytes_header([0x73u8, 0x64, 0x74, 0x70], p);
    assert(p[0] == 0);
    assert(p.subrange(4, p.len() as int) =~= sdtp_bytes(entries));
    assert(sdtp_bytes(entries).map_values(|x: u8| SdtpSampleFlags(x)) =~= entries);
}

} // verus!

verus! {

/// Type code of `stsd`.
pub open spec fn stsd_code() -> Seq<u8> {
    seq![0x73u8, 0x74, 0x73, 0x64]
}

/// What decoding the `stsd` box at the start of `s` gives: the bytes of
/// its `entry_count` sample entry boxes, and the box size; `None` when it
/// is not an `stsd` box or one of the entries does not read.
pub open spec fn stsd_decode_spec(s: Seq<u8>) -> Option<(Seq<Seq<u8>>, nat)> {
    match box_payload_of(s, stsd_code()) {
        None => None,
        Some((p, size)) => if p.len() < 8 {
            None
        } else {
            match take_boxes(p.subrange(8, p.len() as int), be_value(p, 4, 4)) {
                None => None,
                Some(es) => Some((es.map_values(|e: (Seq<u8>, Seq<u8>)| e.1), size)),
            }
        },
    }
}

/// Whether the sample entry `e` is the box `c`, kept raw.
pub open spec fn raw_entry_matches(e: SampleEntry, c: Seq<u8>) -> bool {
    match e {
        SampleEntry::Unknown(u) => unknown_matches(u, c),
        _ => false,
    }
}

/// Whether `b` holds the sample entries of the `stsd` box `c`, each kept raw.
pub open spec fn stsd_matches(b: StsdBox, c: Seq<u8>) -> bool {
    match stsd_decode_spec(c) {
        None => false,
        Some((es, _)) => b.entries@.len() == es.len() && forall|i: int|
            0 <= i < es.len() ==> raw_entry_matches(#[trigger] b.entries@[i], es[i]),
    }
}

impl StsdBox {
    /// Decodes the `stsd` box at the start of `buf`, returning it and its
    /// size. Each sample entry is kept as a raw box
    /// ([`SampleEntry::Unknown`]).
    pub fn decode(buf: &[u8]) -> (r: Result<(StsdBox, usize), Error>)
        ensures
            r is Ok <==> stsd_decode_spec(buf@) is Some,
            r matches Ok((b, n)) ==> stsd_matches(b, buf@) && stsd_decode_spec(buf@).unwrap().1 == n,
            r matches Err(e) ==> e.kind == ErrorKind::InvalidData,
    {
        proof {
            assert([0x73u8, 0x74, 0x73, 0x64]@ =~= stsd_code());
        }
        let (start, end) = box_payload_range(buf, [0x73u8, 0x74, 0x73, 0x64])?;
        let payload = &buf[start..end];
        if payload.len() < 8 {
            return Err(Error::invalid_data("stsd box is too short"));
        }
        let count = read_be(payload, 4, 4)?;
        let ghost p = payload@;
        let ghost q0 = p.subrange(8, p.len() as int);
        let ghost mut done: Seq<(Seq<u8>, Seq<u8>)> = Seq::empty();
        proof {
            assert(p.subrange(8, p.len() as int) == q0);
            match take_boxes(q0, count as nat) {
                None => {},
                Some(r) => {
                    assert(done + r =~= r);
                },
            }
        }
        let mut offset: usize = 8;
        let mut entries: Vec<SampleEntry> = Vec::new();
        let mut k: u64 = 0;
        while k < count
            invariant
                p == payload@,
                p.len() <= usize::MAX,
                8 <= offset <= p.len(),
                k <= count,
                count == be_value(p, 4, 4),
                box_payload_of(buf@, stsd_code()) == Some((p, end as nat)),
                q0 == p.subrange(8, p.len() as int),
                take_boxes(q0, count as nat) == prepend_boxes(
                    done,
                    take_boxes(p.subrange(offset as int, p.len() as int), (count - k) as nat),
                ),
                done.len() == k,
                entries@.len() == k,
                forall|i: int| 0 <= i < k ==> raw_entry_matches(#[trigger] entries@[i], done[i].1),
            decreases count - k,
        {
            let rest = &payload[offset..payload.len()];
            proof {
                assert(rest@ == p.subrange(offset as int, p.len() as int));
            }
            let (t, _hl, size) = match decode_box_header(rest) {
                Ok(h) => h,
                Err(e) => {
                    proof {
                        assert(take_boxes(rest@, (count - k) as nat) is None);
                    }
                    return Err(e);
                },
            };
            proof {
                lemma_box_header_bounds(rest@);
                lemma_box_header_prefix(rest@);
            }
            let child = &rest[0..size];
            proof {
                assert(child@ == rest@.subrange(0, size as int));
            }
            let (u, _n) = UnknownBox::decode(child)?;
            let ghost x = (box_type_bytes(t), child@);
            proof {
                assert(rest@.subrange(size as int, rest@.len() as int) =~= p.subrange(
                    offset + size,
                    p.len() as int,
                ));
                let tail = take_boxes(p.subrange(offset + size, p.len() as int), (count - k - 1) as nat);
                match tail {
                    None => {},
                    Some(r) => {
                        assert(done + (seq![x] + r) =~= done.push(x) + r);
                    },
                }
                done = done.push(x);
            }
            entries.push(SampleEntry::Unknown(u));
            offset = offset + size;
            k = k + 1;
        }
        proof {
            assert(done + Seq::<(Seq<u8>, Seq<u8>)>::empty() =~= done);
        }
        Ok((StsdBox { entries }, end))
    }
}

} // verus!

verus! {

/// Type code of `stbl`.
pub open spec fn stbl_code() -> Seq<u8> {
    seq![0x73u8, 0x74, 0x62, 0x6c]
}

/// The index of the first box of type `code` in `cs`.
pub open spec fn first_index(cs: Seq<(Seq<u8>, Seq<u8>)>, code: Seq<u8>) -> Option<int>
    decreases cs.len(),
{
    if cs.len() == 0 {
        None
    } else {
        match first_index(cs.drop_last(), code) {
            Some(i) => Some(i),
            None => if cs.last().0 == code {
                Some(cs.len() - 1)
            } else {
                None
            },
        }
    }
}

/// The child types that `stbl` interprets.
pub open spec fn stbl_known(code: Seq<u8>) -> bool {
    ||| code == stsd_code()
    ||| code == stts_code()
    ||| code == ctts_code()
    ||| code == cslg_code()
    ||| code == stsc_code()
    ||| code == stsz_code()
    ||| code == stco_code()
    ||| code == co64_code()
    ||| code == stss_code()
    ||| code == sdtp_code()
}

/// Whether the child `c` of the interpreted type `code` decodes as that type.
pub open spec fn stbl_child_decodes(code: Seq<u8>, c: Seq<u8>) -> bool {
    if code == stsd_code() {
        stsd_decode_spec(c) is Some
    } else if code == stts_code() {
        stts_decode_spec(c) is Some
    } else if code == ctts_code() {
        ctts_decode_spec(c) is Some
    } else if code == cslg_code() {
        cslg_decode_spec(c) is Some
    } else if code == stsc_code() {
        stsc_decode_spec(c) is Some
    } else if code == stsz_code() {
        stsz_decode_spec(c) is Some
    } else if code == stco_code() {
        list_box_decode_spec(c, stco_code(), 4) is Some
    } else if code == co64_code() {
        list_box_decode_spec(c, co64_code(), 8) is Some
    } else if code == stss_code() {
        stss_decode_spec(c) is Some
    } else {
        sdtp_decode_spec(c) is Some
    }
}

/// Whether child `i` of `cs` is interpreted: it is the first child of a
/// type that `stbl` knows.
pub open spec fn stbl_interprets(cs: Seq<(Seq<u8>, Seq<u8>)>, i: int) -> bool {
    stbl_known(cs[i].0) && first_index(cs.take(i), cs[i].0) is None
}

/// Whether every interpreted child decodes as its type.
pub open spec fn stbl_children_decode(cs: Seq<(Seq<u8>, Seq<u8>)>) -> bool {
    forall|i: int| 0 <= i < cs.len() && #[trigger] stbl_interprets(cs, i) ==> stbl_child_decodes(cs[i].0, cs[i].1)
}

/// The children that `stbl` keeps raw, in order.
pub open spec fn stbl_unknown(cs: Seq<(Seq<u8>, Seq<u8>)>) -> Seq<Seq<u8>>
    decreases cs.len(),
{
    if cs.len() == 0 {
        Seq::empty()
    } else if stbl_interprets(cs, cs.len() - 1) {
        stbl_unknown(cs.drop_last())
    } else {
        stbl_unknown(cs.drop_last()).push(cs.last().1)
    }
}

/// The children of the `stbl` box at the start of `s`, and its size.
pub open spec fn stbl_children(s: Seq<u8>) -> Option<(Seq<(Seq<u8>, Seq<u8>)>, nat)> {
    match box_payload_of(s, stbl_code()) {
        None => None,
        Some((p, size)) => match split_boxes(p) {
            None => None,
            Some(cs) => Some((cs, size)),
        },
    }
}

/// Whether the `stbl` box at the start of `s` decodes: its payload splits
/// into boxes, the first child of each interpreted type decodes as that
/// type, and there are `stsd`, `stts`, `stsc`, `stsz` and `stco` or `co64`
/// children.
#[verifier::opaque]
pub open spec fn stbl_decodable(s: Seq<u8>) -> bool {
    match stbl_children(s) {
        None => false,
        Some((cs, _)) => {
            &&& stbl_children_decode(cs)
            &&& first_index(cs, stsd_code()) is Some
            &&& first_index(cs, stts_code()) is Some
            &&& first_index(cs, stsc_code()) is Some
            &&& first_index(cs, stsz_code()) is Some
            &&& (first_index(cs, stco_code()) is Some || first_index(cs, co64_code()) is Some)
        },
    }
}

/// Whether `o` holds the first child of type `code` in `cs` as `m` relates
/// them, and is `None` when there is no such child.
pub open spec fn stbl_slot<T>(
    o: Option<T>,
    cs: Seq<(Seq<u8>, Seq<u8>)>,
    code: Seq<u8>,
    m: spec_fn(T, Seq<u8>) -> bool,
) -> bool {
    match first_index(cs, code) {
        None => o is None,
        Some(i) => o matches Some(x) && m(x, cs[i].1),
    }
}

/// `b` is the `stts` box `c`.
pub open spec fn stts_matches(b: SttsBox, c: Seq<u8>) -> bool {
    stts_decode_spec(c) matches Some((e, _)) && e == b.entries@
}

/// `b` is the `ctts` box `c`.
pub open spec fn ctts_matches(b: CttsBox, c: Seq<u8>) -> bool {
    ctts_decode_spec(c) matches Some((v, e, _)) && v == b.version && e == b.entries@
}

/// `b` is the `cslg` box `c`.
pub open spec fn cslg_matches(b: CslgBox, c: Seq<u8>) -> bool {
    cslg_decode_spec(c) matches Some((x, _)) && x == b
}

/// `b` is the `stsc` box `c`.
pub open spec fn stsc_matches(b: StscBox, c: Seq<u8>) -> bool {
    stsc_decode_spec(c) matches Some((e, _)) && e == b.entries@
}

/// `b` is the `stsz` box `c`.
pub open spec fn stsz_matches(b: StszBox, c: Seq<u8>) -> bool {
    &&& stsz_decode_spec(c) matches Some((v, _)) && v == stsz_view(b)
    &&& b matches StszBox::Fixed { sample_size, .. } ==> sample_size != 0
}

/// `b` is the `stco` box `c`.
pub open spec fn stco_matches(b: StcoBox, c: Seq<u8>) -> bool {
    list_box_decode_spec(c, stco_code(), 4) matches Some((v, _)) && v == u32_vals(b.chunk_offsets@)
}

/// `b` is the `co64` box `c`.
pub open spec fn co64_matches(b: Co64Box, c: Seq<u8>) -> bool {
    list_box_decode_spec(c, co64_code(), 8) matches Some((v, _)) && v == u64_vals(b.chunk_offsets@)
}

/// `b` is the `stss` box `c`.
pub open spec fn stss_matches(b: StssBox, c: Seq<u8>) -> bool {
    stss_decode_spec(c) matches Some((v, _)) && v == u32_vals(b.sample_numbers@)
}

/// `b` is the `sdtp` box `c`.
pub open spec fn sdtp_matches(b: SdtpBox, c: Seq<u8>) -> bool {
    sdtp_decode_spec(c) matches Some((e, _)) && e == b.entries@
}

/// Whether `u` holds the raw children `cs`, in order.
pub open spec fn unknown_list_matches(u: Seq<UnknownBox>, cs: Seq<Seq<u8>>) -> bool {
    u.len() == cs.len() && forall|i: int| 0 <= i < cs.len() ==> unknown_matches(#[trigger] u[i], cs[i])
}

/// Whether `b` of size `n` is what decoding the `stbl` box at the start of
/// `s` gives: each field the first child of its type (`stco` before
/// `co64`), every other child kept raw in order.
#[verifier::opaque]
pub open spec fn stbl_decoded(s: Seq<u8>, b: StblBox, n: nat) -> bool {
    match stbl_children(s) {
        None => false,
        Some((cs, size)) => {
            &&& n == size
            &&& stbl_slot(Some(b.stsd_box), cs, stsd_code(), |x: StsdBox, c: Seq<u8>| stsd_matches(x, c))
            &&& stbl_slot(Some(b.stts_box), cs, stts_code(), |x: SttsBox, c: Seq<u8>| stts_matches(x, c))
            &&& stbl_slot(b.ctts_box, cs, ctts_code(), |x: CttsBox, c: Seq<u8>| ctts_matches(x, c))
            &&& stbl_slot(b.cslg_box, cs, cslg_code(), |x: CslgBox, c: Seq<u8>| cslg_matches(x, c))
            &&& stbl_slot(Some(b.stsc_box), cs, stsc_code(), |x: StscBox, c: Seq<u8>| stsc_matches(x, c))
            &&& stbl_slot(Some(b.stsz_box), cs, stsz_code(), |x: StszBox, c: Seq<u8>| stsz_matches(x, c))
            &&& match b.stco_or_co64_box {
                Either::A(x) => stbl_slot(Some(x), cs, stco_code(), |x: StcoBox, c: Seq<u8>| stco_matches(x, c)),
                Either::B(y) => first_index(cs, stco_code()) is None && stbl_slot(
                    Some(y),
                    cs,
                    co64_code(),
                    |x: Co64Box, c: Seq<u8>| co64_matches(x, c),
                ),
            }
            &&& stbl_slot(b.stss_box, cs, stss_code(), |x: StssBox, c: Seq<u8>| stss_matches(x, c))
            &&& stbl_slot(b.sdtp_box, cs, sdtp_code(), |x: SdtpBox, c: Seq<u8>| sdtp_matches(x, c))
            &&& unknown_list_matches(b.unknown_boxes@, stbl_unknown(cs))
        },
    }
}

/// `first_index` after one more box.
pub(crate) proof fn lemma_first_index_push(cs: Seq<(Seq<u8>, Seq<u8>)>, x: (Seq<u8>, Seq<u8>), code: Seq<u8>)
    ensures
        first_index(cs.push(x), code) == match first_index(cs, code) {
            Some(i) => Some(i),
            None => if x.0 == code {
                Some(cs.len() as int)
            } else {
                None
            },
        },
{
    assert(cs.push(x).drop_last() =~= cs);
}

/// `first_index` points at a box of that type.
pub(crate) proof fn lemma_first_index_bounds(cs: Seq<(Seq<u8>, Seq<u8>)>, code: Seq<u8>)
    ensures
        first_index(cs, code) matches Some(i) ==> 0 <= i < cs.len() && cs[i].0 == code,
    decreases cs.len(),
{
    if cs.len() > 0 {
        lemma_first_index_bounds(cs.drop_last(), code);
    }
}

/// Interpretation, decoding and the raw list after one more child.
pub(crate) proof fn lemma_stbl_push(cs: Seq<(Seq<u8>, Seq<u8>)>, x: (Seq<u8>, Seq<u8>))
    ensures
        stbl_interprets(cs.push(x), cs.len() as int) == (stbl_known(x.0) && first_index(cs, x.0) is None),
        forall|i: int| 0 <= i < cs.len() ==> stbl_interprets(cs.push(x), i) == stbl_interprets(cs, i),
        stbl_children_decode(cs.push(x)) == (stbl_children_decode(cs) && (stbl_interprets(
            cs.push(x),
            cs.len() as int,
        ) ==> stbl_child_decodes(x.0, x.1))),
        stbl_unknown(cs.push(x)) == if stbl_interprets(cs.push(x), cs.len() as int) {
            stbl_unknown(cs)
        } else {
            stbl_unknown(cs).push(x.1)
        },
{
    let c2 = cs.push(x);
    assert(c2.take(cs.len() as int) =~= cs);
    assert(c2.drop_last() =~= cs);
    assert forall|i: int| 0 <= i < cs.len() implies stbl_interprets(c2, i) == stbl_interprets(cs, i) by {
        assert(c2.take(i) =~= cs.take(i));
        assert(c2[i] == cs[i]);
    }
    if stbl_children_decode(c2) {
        assert forall|i: int| 0 <= i < cs.len() && #[trigger] stbl_interprets(cs, i) implies stbl_child_decodes(
            cs[i].0,
            cs[i].1,
        ) by {
            assert(stbl_interprets(c2, i));
            assert(c2[i] == cs[i]);
        }
        assert(stbl_interprets(c2, cs.len() as int) ==> stbl_child_decodes(c2[cs.len() as int].0, c2[cs.len() as int].1));
    }
    if stbl_children_decode(cs) && (stbl_interprets(c2, cs.len() as int) ==> stbl_child_decodes(x.0, x.1)) {
        assert forall|i: int| 0 <= i < c2.len() && #[trigger] stbl_interprets(c2, i) implies stbl_child_decodes(
            c2[i].0,
            c2[i].1,
        ) by {
            if i < cs.len() {
                assert(stbl_interprets(cs, i));
                assert(c2[i] == cs[i]);
            }
        }
    }
}

/// A failed interpreted child stays failed when more children follow.
proof fn lemma_stbl_children_decode_prefix(pre: Seq<(Seq<u8>, Seq<u8>)>, rest: Seq<(Seq<u8>, Seq<u8>)>)
    requires
        stbl_children_decode(pre + rest),
    ensures
        stbl_children_decode(pre),
{
    let all = pre + rest;
    assert forall|i: int| 0 <= i < pre.len() && #[trigger] stbl_interprets(pre, i) implies stbl_child_decodes(
        pre[i].0,
        pre[i].1,
    ) by {
        assert(all.take(i) =~= pre.take(i));
        assert(all[i] == pre[i]);
        assert(stbl_interprets(all, i));
    }
}

} // verus!

verus! {
/// The type codes that `stbl` interprets differ from one another.
pub(crate) proof fn lemma_stbl_codes_distinct()
    ensures
        stsd_code() != stts_code(),
        stsd_code() != ctts_code(),
        stsd_code() != cslg_code(),
        stsd_code() != stsc_code(),
        stsd_code() != stsz_code(),
        stsd_code() != stco_code(),
        stsd_code() != co64_code(),
        stsd_code() != stss_code(),
        stsd_code() != sdtp_code(),
        stts_code() != ctts_code(),
        stts_code() != cslg_code(),
        stts_code() != stsc_code(),
        stts_code() != stsz_code(),
        stts_code() != stco_code(),
        stts_code() != co64_code(),
        stts_code() != stss_code(),
        stts_code() != sdtp_code(),
        ctts_code() != cslg_code(),
        ctts_code() != stsc_code(),
        ctts_code() != stsz_code(),
        ctts_code() != stco_code(),
        ctts_code() != co64_code(),
        ctts_code() != stss_code(),
        ctts_code() != sdtp_code(),
        cslg_code() != stsc_code(),
        cslg_code() != stsz_code(),
        cslg_code() != stco_code(),
        cslg_code() != co64_code(),
        cslg_code() != stss_code(),
        cslg_code() != sdtp_code(),
        stsc_code() != stsz_code(),
        stsc_code() != stco_code(),
        stsc_code() != co64_code(),
        stsc_code() != stss_code(),
        stsc_code() != sdtp_code(),
        stsz_code() != stco_code(),
        stsz_code() != co64_code(),
        stsz_code() != stss_code(),
        stsz_code() != sdtp_code(),
        stco_code() != co64_code(),
        stco_code() != stss_code(),
        stco_code() != sdtp_code(),
        co64_code() != stss_code(),
        co64_code() != sdtp_code(),
        stss_code() != sdtp_code(),
{
    assert(stsd_code()[0] == 0x73u8);
    assert(stsd_code()[1] == 0x74u8);
    assert(stsd_code()[2] == 0x73u8);
    assert(stsd_code()[3] == 0x64u8);
    assert(stts_code()[0] == 0x73u8);
    assert(stts_code()[1] == 0x74u8);
    assert(stts_code()[2] == 0x74u8);
    assert(stts_code()[3] == 0x73u8);
    assert(ctts_code()[0] == 0x63u8);
    assert(ctts_code()[1] == 0x74u8);
    assert(ctts_code()[2] == 0x74u8);
    assert(ctts_code()[3] == 0x73u8);
    assert(cslg_code()[0] == 0x63u8);
    assert(cslg_code()[1] == 0x73u8);
    assert(cslg_code()[2] == 0x6cu8);
    assert(cslg_code()[3] == 0x67u8);
    assert(stsc_code()[0] == 0x73u8);
    assert(stsc_code()[1] == 0x74u8);
    assert(stsc_code()[2] == 0x73u8);
    assert(stsc_code()[3] == 0x63u8);
    assert(stsz_code()[0] == 0x73u8);
    assert(stsz_code()[1] == 0x74u8);
    assert(stsz_code()[2] == 0x73u8);
    assert(stsz_code()[3] == 0x7au8);
    assert(stco_code()[0] == 0x73u8);
    assert(stco_code()[1] == 0x74u8);
    assert(stco_code()[2] == 0x63u8);
    assert(stco_code()[3] == 0x6fu8);
    assert(co64_code()[0] == 0x63u8);
    assert(co64_code()[1] == 0x6fu8);
    assert(co64_code()[2] == 0x36u8);
    assert(co64_code()[3] == 0x34u8);
    assert(stss_code()[0] == 0x73u8);
    assert(stss_code()[1] == 0x74u8);
    assert(stss_code()[2] == 0x73u8);
    assert(stss_code()[3] == 0x73u8);
    assert(sdtp_code()[0] == 0x73u8);
    assert(sdtp_code()[1] == 0x64u8);
    assert(sdtp_code()[2] == 0x74u8);
    assert(sdtp_code()[3] == 0x70u8);
}

/// The children of an `stbl` box read so far.
struct StblParts {
    stsd: Option<StsdBox>,
    stts: Option<SttsBox>,
    ctts: Option<CttsBox>,
    cslg: Option<CslgBox>,
    stsc: Option<StscBox>,
    stsz: Option<StszBox>,
    stco: Option<StcoBox>,
    co64: Option<Co64Box>,
    stss: Option<StssBox>,
    sdtp: Option<SdtpBox>,
    unknown: Vec<UnknownBox>,
}

/// Whether every slot of `parts` holds the first child of its type in `cs`.
spec fn stbl_slots_ok(parts: StblParts, cs: Seq<(Seq<u8>, Seq<u8>)>) -> bool {
    &&& stbl_slot(parts.stsd, cs, stsd_code(), |x: StsdBox, c: Seq<u8>| stsd_matches(x, c))
    &&& stbl_slot(parts.stts, cs, stts_code(), |x: SttsBox, c: Seq<u8>| stts_matches(x, c))
    &&& stbl_slot(parts.ctts, cs, ctts_code(), |x: CttsBox, c: Seq<u8>| ctts_matches(x, c))
    &&& stbl_slot(parts.cslg, cs, cslg_code(), |x: CslgBox, c: Seq<u8>| cslg_matches(x, c))
    &&& stbl_slot(parts.stsc, cs, stsc_code(), |x: StscBox, c: Seq<u8>| stsc_matches(x, c))
    &&& stbl_slot(parts.stsz, cs, stsz_code(), |x: StszBox, c: Seq<u8>| stsz_matches(x, c))
    &&& stbl_slot(parts.stco, cs, stco_code(), |x: StcoBox, c: Seq<u8>| stco_matches(x, c))
    &&& stbl_slot(parts.co64, cs, co64_code(), |x: Co64Box, c: Seq<u8>| co64_matches(x, c))
    &&& stbl_slot(parts.stss, cs, stss_code(), |x: StssBox, c: Seq<u8>| stss_matches(x, c))
    &&& stbl_slot(parts.sdtp, cs, sdtp_code(), |x: SdtpBox, c: Seq<u8>| sdtp_matches(x, c))
}

/// Whether `parts` holds what reading the children `cs` gives.
spec fn stbl_parts_ok(parts: StblParts, cs: Seq<(Seq<u8>, Seq<u8>)>) -> bool {
    &&& stbl_slots_ok(parts, cs)
    &&& unknown_list_matches(parts.unknown@, stbl_unknown(cs))
    &&& stbl_children_decode(cs)
}

/// `first_index` of every interpreted type after one more box.
pub(crate) proof fn lemma_first_index_push_all(cs: Seq<(Seq<u8>, Seq<u8>)>, x: (Seq<u8>, Seq<u8>))
    ensures
        first_index(cs.push(x), stsd_code()) == match first_index(cs, stsd_code()) {
            Some(i) => Some(i),
            None => if x.0 == stsd_code() { Some(cs.len() as int) } else { None },
        },
        first_index(cs, stsd_code()) matches Some(i) ==> 0 <= i < cs.len() && cs[i].0 == stsd_code(),
        first_index(cs.push(x), stts_code()) == match first_index(cs, stts_code()) {
            Some(i) => Some(i),
            None => if x.0 == stts_code() { Some(cs.len() as int) } else { None },
        },
        first_index(cs, stts_code()) matches Some(i) ==> 0 <= i < cs.len() && cs[i].0 == stts_code(),
        first_index(cs.push(x), ctts_code()) == match first_index(cs, ctts_code()) {
            Some(i) => Some(i),
            None => if x.0 == ctts_code() { Some(cs.len() as int) } else { None },
        },
        first_index(cs, ctts_code()) matches Some(i) ==> 0 <= i < cs.len() && cs[i].0 == ctts_code(),
        first_index(cs.push(x), cslg_code()) == match first_index(cs, cslg_code()) {
            Some(i) => Some(i),
            None => if x.0 == cslg_code() { Some(cs.len() as int) } else { None },
        },
        first_index(cs, cslg_code()) matches Some(i) ==> 0 <= i < cs.len() && cs[i].0 == cslg_code(),
        first_index(cs.push(x), stsc_code()) == match first_index(cs, stsc_code()) {
            Some(i) => Some(i),
            None => if x.0 == stsc_code() { Some(cs.len() as int) } else { None },
        },
        first_index(cs, stsc_code()) matches Some(i) ==> 0 <= i < cs.len() && cs[i].0 == stsc_code(),
        first_index(cs.push(x), stsz_code()) == match first_index(cs, stsz_code()) {
            Some(i) => Some(i),
            None => if x.0 == stsz_code() { Some(cs.len() as int) } else { None },
        },
        first_index(cs, stsz_code()) matches Some(i) ==> 0 <= i < cs.len() && cs[i].0 == stsz_code(),
        first_index(cs.push(x), stco_code()) == match first_index(cs, stco_code()) {
            Some(i) => Some(i),
            None => if x.0 == stco_code() { Some(cs.len() as int) } else { None },
        },
        first_index(cs, stco_code()) matches Some(i) ==> 0 <= i < cs.len() && cs[i].0 == stco_code(),
        first_index(cs.push(x), co64_code()) == match first_index(cs, co64_code()) {
            Some(i) => Some(i),
            None => if x.0 == co64_code() { Some(cs.len() as int) } else { None },
        },
        first_index(cs, co64_code()) matches Some(i) ==> 0 <= i < cs.len() && cs[i].0 == co64_code(),
        first_index(cs.push(x), stss_code()) == match first_index(cs, stss_code()) {
            Some(i) => Some(i),
            None => if x.0 == stss_code() { Some(cs.len() as int) } else { None },
        },
        first_index(cs, stss_code()) matches Some(i) ==> 0 <= i < cs.len() && cs[i].0 == stss_code(),
        first_index(cs.push(x), sdtp_code()) == match first_index(cs, sdtp_code()) {
            Some(i) => Some(i),
            None => if x.0 == sdtp_code() { Some(cs.len() as int) } else { None },
        },
        first_index(cs, sdtp_code()) matches Some(i) ==> 0 <= i < cs.len() && cs[i].0 == sdtp_code(),
{
    lemma_first_index_push(cs, x, stsd_code());
    lemma_first_index_bounds(cs, stsd_code());
    lemma_first_index_push(cs, x, stts_code());
    lemma_first_index_bounds(cs, stts_code());
    lemma_first_index_push(cs, x, ctts_code());
    lemma_first_index_bounds(cs, ctts_code());
    lemma_first_index_push(cs, x, cslg_code());
    lemma_first_index_bounds(cs, cslg_code());
    lemma_first_index_push(cs, x, stsc_code());
    lemma_first_index_bounds(cs, stsc_code());
    lemma_first_index_push(cs, x, stsz_code());
    lemma_first_index_bounds(cs, stsz_code());
    lemma_first_index_push(cs, x, stco_code());
    lemma_first_index_bounds(cs, stco_code());
    lemma_first_index_push(cs, x, co64_code());
    lemma_first_index_bounds(cs, co64_code());
    lemma_first_index_push(cs, x, stss_code());
    lemma_first_index_bounds(cs, stss_code());
    lemma_first_index_push(cs, x, sdtp_code());
    lemma_first_index_bounds(cs, sdtp_code());
}

/// Whether the box type `t` has the four character code `code`.
pub(crate) fn type_is(t: &BoxType, code: [u8; 4]) -> (r: bool)
    ensures
        r == (box_type_bytes(*t) == code@),
{
    match t {
        BoxType::Normal(c) => {
            let r = c[0] == code[0] && c[1] == code[1] && c[2] == code[2] && c[3] == code[3];
            proof {
                if r {
                    assert(c@ =~= code@);
                } else if c@ == code@ {
                    assert(c@[0] == code@[0] && c@[1] == code@[1] && c@[2] == code@[2] && c@[3] == code@[3]);
                }
            }
            r
        },
        BoxType::Uuid(u) => {
            proof {
                assert(u@.len() == 16);
            }
            false
        },
    }
}

/// Reads one more child of an `stbl` box: the box `child` of type `t`.
#[verifier::spinoff_prover]
#[verifier::rlimit(30)]
fn stbl_take_child(parts: &mut StblParts, t: &BoxType, child: &[u8], Ghost(cs): Ghost<Seq<(Seq<u8>, Seq<u8>)>>) -> (r:
    Result<(), Error>)
    requires
        stbl_parts_ok(*old(parts), cs),
        box_header_spec(child@) matches Some((code, _, _)) && code == box_type_bytes(*t),
    ensures
        r is Ok ==> stbl_parts_ok(*final(parts), cs.push((box_type_bytes(*t), child@))),
        r is Err ==> !stbl_children_decode(cs.push((box_type_bytes(*t), child@))),
        r matches Err(e) ==> e.kind == ErrorKind::InvalidData,
{
    let ghost x = (box_type_bytes(*t), child@);
    proof {
        lemma_first_index_push_all(cs, x);
        lemma_stbl_push(cs, x);
        lemma_stbl_codes_distinct();
        assert([0x73u8, 0x74, 0x73, 0x64]@ =~= stsd_code());
        assert([0x73u8, 0x74, 0x74, 0x73]@ =~= stts_code());
        assert([0x63u8, 0x74, 0x74, 0x73]@ =~= ctts_code());
        assert([0x63u8, 0x73, 0x6c, 0x67]@ =~= cslg_code());
        assert([0x73u8, 0x74, 0x73, 0x63]@ =~= stsc_code());
        assert([0x73u8, 0x74, 0x73, 0x7a]@ =~= stsz_code());
        assert([0x73u8, 0x74, 0x63, 0x6f]@ =~= stco_code());
        assert([0x63u8, 0x6f, 0x36, 0x34]@ =~= co64_code());
        assert([0x73u8, 0x74, 0x73, 0x73]@ =~= stss_code());
        assert([0x73u8, 0x64, 0x74, 0x70]@ =~= sdtp_code());
    }
    if type_is(t, [0x73u8, 0x74, 0x73, 0x64]) && parts.stsd.is_none() {
        let (b, _) = StsdBox::decode(child)?;
        parts.stsd = Some(b);
    } else if type_is(t, [0x73u8, 0x74, 0x74, 0x73]) && parts.stts.is_none() {
        let (b, _) = SttsBox::decode(child)?;
        parts.stts = Some(b);
    } else if type_is(t, [0x63u8, 0x74, 0x74, 0x73]) && parts.ctts.is_none() {
        let (b, _) = CttsBox::decode(child)?;
        parts.ctts = Some(b);
    } else if type_is(t, [0x63u8, 0x73, 0x6c, 0x67]) && parts.cslg.is_none() {
        let (b, _) = CslgBox::decode(child)?;
        parts.cslg = Some(b);
    } else if type_is(t, [0x73u8, 0x74, 0x73, 0x63]) && parts.stsc.is_none() {
        let (b, _) = StscBox::decode(child)?;
        parts.stsc = Some(b);
    } else if type_is(t, [0x73u8, 0x74, 0x73, 0x7a]) && parts.stsz.is_none() {
        let (b, _) = StszBox::decode(child)?;
        parts.stsz = Some(b);
    } else if type_is(t, [0x73u8, 0x74, 0x63, 0x6f]) && parts.stco.is_none() {
        let (b, _) = StcoBox::decode(child)?;
        parts.stco = Some(b);
    } else if type_is(t, [0x63u8, 0x6f, 0x36, 0x34]) && parts.co64.is_none() {
        let (b, _) = Co64Box::decode(child)?;
        parts.co64 = Some(b);
    } else if type_is(t, [0x73u8, 0x74, 0x73, 0x73]) && parts.stss.is_none() {
        let (b, _) = StssBox::decode(child)?;
        parts.stss = Some(b);
    } else if type_is(t, [0x73u8, 0x64, 0x74, 0x70]) && parts.sdtp.is_none() {
        let (b, _) = SdtpBox::decode(child)?;
        parts.sdtp = Some(b);
    } else {
        let (u, _) = UnknownBox::decode(child)?;
        parts.unknown.push(u);
        proof {
            assert(parts.unknown@ =~= old(parts).unknown@.push(u));
        }
    }
    Ok(())
}

} // verus!

verus! {

impl StblBox {
    /// Decodes the `stbl` box at the start of `buf`, returning it and its
    /// size. The first child of each type this box holds fills its field
    /// (`stco` before `co64`); every other child is kept raw in
    /// `unknown_boxes`. Fails with [`ErrorKind::InvalidData`] when a child
    /// does not read, or `stsd`, `stts`, `stsc`, `stsz` or both `stco` and
    /// `co64` are missing.
    #[verifier::spinoff_prover]
    #[verifier::rlimit(40)]
    pub fn decode(buf: &[u8]) -> (r: Result<(StblBox, usize), Error>)
        ensures
            r is Ok <==> stbl_decodable(buf@),
            r matches Ok((b, n)) ==> stbl_decoded(buf@, b, n as nat),
            r matches Ok((_, n)) ==> (box_header_spec(buf@) matches Some((_, _, size)) && n == size),
            r matches Err(e) ==> e.kind == ErrorKind::InvalidData,
    {
        proof {
            assert([0x73u8, 0x74, 0x62, 0x6c]@ =~= stbl_code());
        }
        let (start, end) = match box_payload_range(buf, [0x73u8, 0x74, 0x62, 0x6c]) {
            Ok(r) => r,
            Err(e) => {
                assert(!stbl_decodable(buf@)) by {
                    reveal(stbl_decodable);
                }
                return Err(e);
            },
        };
        let payload = &buf[start..end];
        let ghost p = payload@;
        let mut parts = StblParts {
            stsd: None,
            stts: None,
            ctts: None,
            cslg: None,
            stsc: None,
            stsz: None,
            stco: None,
            co64: None,
            stss: None,
            sdtp: None,
            unknown: Vec::new(),
        };
        let ghost mut done: Seq<(Seq<u8>, Seq<u8>)> = Seq::empty();
        proof {
            assert(p.subrange(0, p.len() as int) =~= p);
            match split_boxes(p) {
                None => {},
                Some(r) => {
                    assert(done + r =~= r);
                },
            }
            assert(unknown_list_matches(parts.unknown@, stbl_unknown(done)));
        }
        let mut offset: usize = 0;
        while offset < payload.len()
            invariant
                p == payload@,
                p.len() <= usize::MAX,
                offset <= p.len(),
                box_payload_of(buf@, stbl_code()) == Some((p, end as nat)),
                split_boxes(p) == prepend_boxes(done, split_boxes(p.subrange(offset as int, p.len() as int))),
                stbl_parts_ok(parts, done),
            decreases p.len() - offset,
        {
            let rest = &payload[offset..payload.len()];
            proof {
                assert(rest@ == p.subrange(offset as int, p.len() as int));
            }
            let (t, _hl, size) = match decode_box_header(rest) {
                Ok(h) => h,
                Err(e) => {
                    assert(!stbl_decodable(buf@)) by {
                        reveal(stbl_decodable);
                        assert(split_boxes(rest@) is None);
                    }
                    return Err(e);
                },
            };
            proof {
                lemma_box_header_bounds(rest@);
                lemma_box_header_prefix(rest@);
            }
            let child = &rest[0..size];
            let ghost x = (box_type_bytes(t), child@);
            proof {
                assert(child@ == rest@.subrange(0, size as int));
                assert(rest@.subrange(size as int, rest@.len() as int) =~= p.subrange(
                    offset + size,
                    p.len() as int,
                ));
                match split_boxes(p.subrange(offset + size, p.len() as int)) {
                    None => {},
                    Some(r) => {
                        assert(done + (seq![x] + r) =~= done.push(x) + r);
                    },
                }
            }
            match stbl_take_child(&mut parts, &t, child, Ghost(done)) {
                Ok(()) => {},
                Err(e) => {
                    assert(!stbl_decodable(buf@)) by {
                        reveal(stbl_decodable);
                        match split_boxes(p.subrange(offset + size, p.len() as int)) {
                            None => {},
                            Some(r) => {
                                if stbl_children_decode(done.push(x) + r) {
                                    lemma_stbl_children_decode_prefix(done.push(x), r);
                                }
                            },
                        }
                    }
                    return Err(e);
                },
            }
            proof {
                done = done.push(x);
            }
            offset = offset + size;
        }
        proof {
            reveal(stbl_decodable);
            reveal(stbl_decoded);
            assert(done + Seq::<(Seq<u8>, Seq<u8>)>::empty() =~= done);
            lemma_first_index_bounds(done, stsd_code());
            lemma_first_index_bounds(done, stts_code());
            lemma_first_index_bounds(done, stsc_code());
            lemma_first_index_bounds(done, stsz_code());
            lemma_first_index_bounds(done, stco_code());
            lemma_first_index_bounds(done, co64_code());
        }
        let StblParts { stsd, stts, ctts, cslg, stsc, stsz, stco, co64, stss, sdtp, unknown } = parts;
        let stsd_box = match stsd {
            Some(b) => b,
            None => {
                return Err(Error::invalid_data("Missing mandatory 'stsd' box in 'stbl' box"));
            },
        };
        let stts_box = match stts {
            Some(b) => b,
            None => {
                return Err(Error::invalid_data("Missing mandatory 'stts' box in 'stbl' box"));
            },
        };
        let stsc_box = match stsc {
            Some(b) => b,
            None => {
                return Err(Error::invalid_data("Missing mandatory 'stsc' box in 'stbl' box"));
            },
        };
        let stsz_box = match stsz {
            Some(b) => b,
            None => {
                return Err(Error::invalid_data("Missing mandatory 'stsz' box in 'stbl' box"));
            },
        };
        let stco_or_co64_box = match stco {
            Some(b) => Either::A(b),
            None => match co64 {
                Some(b) => Either::B(b),
                None => {
                    return Err(Error::invalid_data("Missing mandatory 'stco' or 'co64' box in 'stbl' box"));
                },
            },
        };
        Ok((
            StblBox {
                stsd_box,
                stts_box,
                ctts_box: ctts,
                cslg_box: cslg,
                stsc_box,
                stsz_box,
                stco_or_co64_box,
                stss_box: stss,
                sdtp_box: sdtp,
                unknown_boxes: unknown,
            },
            end,
        ))
    }
}

} // verus!
