//! Encoding of the container boxes of the movie tree that hold sample
//! entries: `stsd`, `stbl`, `minf`, `mdia`, `trak` and `moov`. Each writes
//! its children in a fixed order (those it holds as fields, then the
//! unknown children it kept) inside a box header sized to fit.
use vstd::prelude::*;

use crate::boxes::{BoxType, Either, SampleEntry};
use crate::boxes_moov_tree::{
    co64_box_bytes, ctts_box_bytes, ctts_encodable, cslg_box_bytes, cslg_encodable, full_box_v0, sdtp_box_bytes,
    stco_box_bytes, stsc_box_bytes, stss_box_bytes, stsz_box_bytes, stts_box_bytes, CslgBox, CttsBox, EdtsBox,
    MdiaBox, MediaHeader, MinfBox, MoovBox, MvexBox, SdtpBox, StblBox, StsdBox, StssBox, StszBox, TrakBox,
};
use crate::codec::{
    box_bytes, concat_records, encode_unknown_boxes, lemma_be_bytes_len, lemma_concat_records_push, put_be,
    put_box, put_bytes, unknown_boxes_bytes,
};
use crate::containers::{
    dinf_box_bytes, edts_box_bytes, lemma_box_bytes_len, media_header_bytes, mvex_box_bytes, opt_bytes,
};
use crate::header_boxes::{hdlr_box_bytes, language_ok, mdhd_box_bytes, mvhd_box_bytes, tkhd_box_bytes, zeros};
use crate::error::{Error, ErrorKind};
use crate::nal::be_bytes;
use crate::sample_entries::{
    lemma_concat_records_take_len, sample_entry_bytes, sample_entry_fits, sample_entry_ok,
};

verus! {

/// Every entry's packed fields fit their bits.
pub open spec fn stsd_entries_fit(es: Seq<SampleEntry>) -> bool {
    forall|i: int| 0 <= i < es.len() ==> sample_entry_fits(#[trigger] es[i])
}

/// Every entry can be written.
pub open spec fn stsd_ok(b: StsdBox) -> bool {
    forall|i: int| 0 <= i < b.entries@.len() ==> sample_entry_ok(#[trigger] b.entries@[i])
}

/// An `stsd` box of `b`: version and flags 0, the entry count, then the entries.
pub open spec fn stsd_box_bytes(b: StsdBox) -> Seq<u8> {
    box_bytes(
        BoxType::Normal([0x73u8, 0x74, 0x73, 0x64]),
        full_box_v0() + be_bytes(b.entries@.len(), 4) + concat_records(
            b.entries@.map_values(|e: SampleEntry| sample_entry_bytes(e)),
        ),
    )
}

impl StsdBox {
    /// Encodes the box. Fails with [`ErrorKind::InvalidInput`] unless
    /// [`stsd_ok`] holds.
    pub fn encode(&self) -> (r: Result<Vec<u8>, Error>)
        requires
            stsd_entries_fit(self.entries@),
            self.entries@.len() <= u32::MAX,
            stsd_box_bytes(*self).len() + 64 <= usize::MAX,
        ensures
            r is Ok <==> stsd_ok(*self),
            r matches Ok(v) ==> v@ == stsd_box_bytes(*self),
            r matches Err(e) ==> e.kind == ErrorKind::InvalidInput,
    {
        let ghost recs = self.entries@.map_values(|e: SampleEntry| sample_entry_bytes(e));
        let mut payload: Vec<u8> = Vec::new();
        put_be(&mut payload, 0, 4);
        put_be(&mut payload, self.entries.len() as u64, 4);
        let ghost head = payload@;
        proof {
            lemma_be_bytes_len(0, 4);
            lemma_be_bytes_len(self.entries@.len(), 4);
            lemma_box_bytes_len(
                BoxType::Normal([0x73u8, 0x74, 0x73, 0x64]),
                full_box_v0() + be_bytes(self.entries@.len(), 4) + concat_records(recs),
            );
            assert(recs.take(0) =~= Seq::<Seq<u8>>::empty());
        }
        let mut i: usize = 0;
        while i < self.entries.len()
            invariant
                recs == self.entries@.map_values(|e: SampleEntry| sample_entry_bytes(e)),
                stsd_entries_fit(self.entries@),
                concat_records(recs).len() + 64 <= usize::MAX,
                i <= self.entries@.len(),
                forall|k: int| 0 <= k < i ==> sample_entry_ok(#[trigger] self.entries@[k]),
                payload@ == head + concat_records(recs.take(i as int)),
            decreases self.entries@.len() - i,
        {
            proof {
                lemma_concat_records_push(recs, i as int);
                lemma_concat_records_take_len(recs, i + 1);
                assert(sample_entry_fits(self.entries@[i as int]));
            }
            let b = match self.entries[i].encode() {
                Ok(b) => b,
                Err(e) => {
                    return Err(e);
                },
            };
            put_bytes(&mut payload, b.as_slice());
            proof {
                assert(payload@ =~= head + concat_records(recs.take(i + 1)));
            }
            i += 1;
        }
        proof {
            assert(recs.take(i as int) =~= recs);
            assert(payload@ =~= full_box_v0() + be_bytes(self.entries@.len(), 4) + concat_records(recs));
        }
        let mut out: Vec<u8> = Vec::new();
        put_box(&mut out, &BoxType::Normal([0x73u8, 0x74, 0x73, 0x64]), payload.as_slice());
        Ok(out)
    }
}

/// The `stbl` children can be handed to their encoders: the entry lists
/// fit their 32 bit counts and their byte sizes fit memory, and the sample
/// entries' packed fields fit their bits.
pub open spec fn stbl_encode_pre(b: StblBox) -> bool {
    &&& b.stsd_box.entries@.len() <= u32::MAX
    &&& stsd_entries_fit(b.stsd_box.entries@)
    &&& b.stts_box.entries@.len() <= u32::MAX
    &&& 8 * b.stts_box.entries@.len() + 64 <= usize::MAX
    &&& (b.ctts_box matches Some(c) ==> c.entries@.len() <= u32::MAX && 8 * c.entries@.len() + 64 <= usize::MAX)
    &&& b.stsc_box.entries@.len() <= u32::MAX
    &&& 12 * b.stsc_box.entries@.len() + 64 <= usize::MAX
    &&& (b.stsz_box matches StszBox::Variable { entry_sizes } ==> entry_sizes@.len() <= u32::MAX && 4
        * entry_sizes@.len() + 64 <= usize::MAX)
    &&& match b.stco_or_co64_box {
        Either::A(s) => s.chunk_offsets@.len() <= u32::MAX && 4 * s.chunk_offsets@.len() + 64 <= usize::MAX,
        Either::B(c) => c.chunk_offsets@.len() <= u32::MAX && 8 * c.chunk_offsets@.len() + 64 <= usize::MAX,
    }
    &&& (b.stss_box matches Some(s) ==> s.sample_numbers@.len() <= u32::MAX && 4 * s.sample_numbers@.len() + 64
        <= usize::MAX)
}

/// When `stbl` can be written: its `stsd`, `ctts` and `cslg` can.
pub open spec fn stbl_encode_ok(b: StblBox) -> bool {
    &&& stsd_ok(b.stsd_box)
    &&& (b.ctts_box matches Some(c) ==> ctts_encodable(c.version, c.entries@))
    &&& (b.cslg_box matches Some(c) ==> cslg_encodable(c))
}

/// The chunk offset box of `stbl`.
pub open spec fn chunk_offsets_box_bytes(b: StblBox) -> Seq<u8> {
    match b.stco_or_co64_box {
        Either::A(s) => stco_box_bytes(s.chunk_offsets@),
        Either::B(c) => co64_box_bytes(c.chunk_offsets@),
    }
}

/// The payload of `stbl`: `stsd`, `stts`, `ctts`, `cslg`, `stsc`, `stsz`,
/// `stco` or `co64`, `stss`, `sdtp`, then the unknown children.
pub open spec fn stbl_payload(b: StblBox) -> Seq<u8> {
    stsd_box_bytes(b.stsd_box) + stts_box_bytes(b.stts_box.entries@) + opt_bytes(
        b.ctts_box,
        |c: CttsBox| ctts_box_bytes(c.version, c.entries@),
    ) + opt_bytes(b.cslg_box, |c: CslgBox| cslg_box_bytes(c)) + stsc_box_bytes(b.stsc_box.entries@)
        + stsz_box_bytes(b.stsz_box) + chunk_offsets_box_bytes(b) + opt_bytes(
        b.stss_box,
        |s: StssBox| stss_box_bytes(s.sample_numbers@),
    ) + opt_bytes(b.sdtp_box, |s: SdtpBox| sdtp_box_bytes(s.entries@)) + unknown_boxes_bytes(b.unknown_boxes@)
}

/// An `stbl` box of `b`.
#[verifier::opaque]
pub open spec fn stbl_box_bytes(b: StblBox) -> Seq<u8> {
    box_bytes(BoxType::Normal([0x73u8, 0x74, 0x62, 0x6c]), stbl_payload(b))
}

impl StblBox {
    /// Encodes the box. Fails with [`ErrorKind::InvalidInput`] unless
    /// [`stbl_encode_ok`] holds.
    #[verifier::spinoff_prover]
    #[verifier::rlimit(40)]
    pub fn encode(&self) -> (r: Result<Vec<u8>, Error>)
        requires
            stbl_encode_pre(*self),
            stbl_box_bytes(*self).len() + 64 <= usize::MAX,
        ensures
            r is Ok <==> stbl_encode_ok(*self),
            r matches Ok(v) ==> v@ == stbl_box_bytes(*self),
            r matches Err(e) ==> e.kind == ErrorKind::InvalidInput,
    {
        proof {
            reveal(stbl_box_bytes);
            lemma_box_bytes_len(BoxType::Normal([0x73u8, 0x74, 0x62, 0x6c]), stbl_payload(*self));
        }
        let mut payload: Vec<u8> = self.stsd_box.encode()?;
        let b = self.stts_box.encode();
        put_bytes(&mut payload, b.as_slice());
        match &self.ctts_box {
            None => {},
            Some(c) => {
                let b = c.encode()?;
                put_bytes(&mut payload, b.as_slice());
            },
        }
        match &self.cslg_box {
            None => {},
            Some(c) => {
                let b = c.encode()?;
                put_bytes(&mut payload, b.as_slice());
            },
        }
        let b = self.stsc_box.encode();
        put_bytes(&mut payload, b.as_slice());
        let b = self.stsz_box.encode();
        put_bytes(&mut payload, b.as_slice());
        match &self.stco_or_co64_box {
            Either::A(s) => {
                let b = s.encode();
                put_bytes(&mut payload, b.as_slice());
            },
            Either::B(c) => {
                let b = c.encode();
                put_bytes(&mut payload, b.as_slice());
            },
        }
        match &self.stss_box {
            None => {},
            Some(s) => {
                let b = s.encode();
                put_bytes(&mut payload, b.as_slice());
            },
        }
        match &self.sdtp_box {
            None => {},
            Some(s) => {
                let b = s.encode();
                put_bytes(&mut payload, b.as_slice());
            },
        }
        encode_unknown_boxes(&mut payload, &self.unknown_boxes);
        proof {
            assert(payload@ =~= stbl_payload(*self));
        }
        let mut out: Vec<u8> = Vec::new();
        put_box(&mut out, &BoxType::Normal([0x73u8, 0x74, 0x62, 0x6c]), payload.as_slice());
        Ok(out)
    }
}

/// The `minf` children can be handed to their encoders: the `dref` entry
/// count fits 32 bits, a `url ` location fits memory, and [`stbl_encode_pre`].
pub open spec fn minf_encode_pre(b: MinfBox) -> bool {
    &&& b.dinf_box.dref_box.unknown_boxes@.len() < u32::MAX
    &&& (b.dinf_box.dref_box.url_box matches Some(u) ==> (u.location matches Some(l) ==> l@.len() + 64
        <= usize::MAX))
    &&& stbl_encode_pre(b.stbl_box)
}

/// The payload of `minf`: the media header, `dinf`, `stbl`, then the
/// unknown children.
pub open spec fn minf_payload(b: MinfBox) -> Seq<u8> {
    opt_bytes(b.media_header, |h: MediaHeader| media_header_bytes(h)) + dinf_box_bytes(b.dinf_box)
        + stbl_box_bytes(b.stbl_box) + unknown_boxes_bytes(b.unknown_boxes@)
}

/// A `minf` box of `b`.
#[verifier::opaque]
pub open spec fn minf_box_bytes(b: MinfBox) -> Seq<u8> {
    box_bytes(BoxType::Normal([0x6du8, 0x69, 0x6e, 0x66]), minf_payload(b))
}

impl MinfBox {
    /// Encodes the box. Fails with [`ErrorKind::InvalidInput`] unless
    /// [`stbl_encode_ok`] holds of its `stbl`.
    pub fn encode(&self) -> (r: Result<Vec<u8>, Error>)
        requires
            minf_encode_pre(*self),
            minf_box_bytes(*self).len() + 64 <= usize::MAX,
        ensures
            r is Ok <==> stbl_encode_ok(self.stbl_box),
            r matches Ok(v) ==> v@ == minf_box_bytes(*self),
            r matches Err(e) ==> e.kind == ErrorKind::InvalidInput,
    {
        proof {
            reveal(minf_box_bytes);
            lemma_box_bytes_len(BoxType::Normal([0x6du8, 0x69, 0x6e, 0x66]), minf_payload(*self));
        }
        let mut payload: Vec<u8> = Vec::new();
        match &self.media_header {
            None => {},
            Some(h) => {
                let b = h.encode();
                put_bytes(&mut payload, b.as_slice());
            },
        }
        let b = self.dinf_box.encode();
        put_bytes(&mut payload, b.as_slice());
        let b = self.stbl_box.encode()?;
        put_bytes(&mut payload, b.as_slice());
        encode_unknown_boxes(&mut payload, &self.unknown_boxes);
        proof {
            assert(payload@ =~= minf_payload(*self));
        }
        let mut out: Vec<u8> = Vec::new();
        put_box(&mut out, &BoxType::Normal([0x6du8, 0x69, 0x6e, 0x66]), payload.as_slice());
        Ok(out)
    }
}

/// The `mdia` children can be handed to their encoders: the language code
/// is lower case and [`minf_encode_pre`].
pub open spec fn mdia_encode_pre(b: MdiaBox) -> bool {
    &&& language_ok(b.mdhd_box.language)
    &&& minf_encode_pre(b.minf_box)
}

/// The payload of `mdia`: `mdhd`, `hdlr`, `minf`, then the unknown children.
pub open spec fn mdia_payload(b: MdiaBox) -> Seq<u8> {
    mdhd_box_bytes(b.mdhd_box) + hdlr_box_bytes(b.hdlr_box) + minf_box_bytes(b.minf_box) + unknown_boxes_bytes(
        b.unknown_boxes@,
    )
}

/// An `mdia` box of `b`.
#[verifier::opaque]
pub open spec fn mdia_box_bytes(b: MdiaBox) -> Seq<u8> {
    box_bytes(BoxType::Normal([0x6du8, 0x64, 0x69, 0x61]), mdia_payload(b))
}

impl MdiaBox {
    /// Encodes the box. Fails with [`ErrorKind::InvalidInput`] unless
    /// [`stbl_encode_ok`] holds of its `stbl`.
    pub fn encode(&self) -> (r: Result<Vec<u8>, Error>)
        requires
            mdia_encode_pre(*self),
            mdia_box_bytes(*self).len() + 64 <= usize::MAX,
        ensures
            r is Ok <==> stbl_encode_ok(self.minf_box.stbl_box),
            r matches Ok(v) ==> v@ == mdia_box_bytes(*self),
            r matches Err(e) ==> e.kind == ErrorKind::InvalidInput,
    {
        proof {
            reveal(mdia_box_bytes);
            lemma_box_bytes_len(BoxType::Normal([0x6du8, 0x64, 0x69, 0x61]), mdia_payload(*self));
            lemma_box_bytes_len(
                BoxType::Normal([0x68u8, 0x64, 0x6c, 0x72]),
                zeros(8) + self.hdlr_box.handler_type@ + zeros(12) + self.hdlr_box.name@,
            );
        }
        let mut payload: Vec<u8> = self.mdhd_box.encode();
        let b = self.hdlr_box.encode();
        put_bytes(&mut payload, b.as_slice());
        let b = self.minf_box.encode()?;
        put_bytes(&mut payload, b.as_slice());
        encode_unknown_boxes(&mut payload, &self.unknown_boxes);
        proof {
            assert(payload@ =~= mdia_payload(*self));
        }
        let mut out: Vec<u8> = Vec::new();
        put_box(&mut out, &BoxType::Normal([0x6du8, 0x64, 0x69, 0x61]), payload.as_slice());
        Ok(out)
    }
}

/// The `trak` children can be handed to their encoders: an edit list fits
/// its 32 bit count and memory, and [`mdia_encode_pre`].
pub open spec fn trak_encode_pre(b: TrakBox) -> bool {
    &&& (b.edts_box matches Some(ed) ==> (ed.elst_box matches Some(e) ==> e.entries@.len() <= u32::MAX && 32
        * e.entries@.len() + 64 <= usize::MAX))
    &&& mdia_encode_pre(b.mdia_box)
}

/// The payload of `trak`: `tkhd`, `edts`, `mdia`, then the unknown children.
pub open spec fn trak_payload(b: TrakBox) -> Seq<u8> {
    tkhd_box_bytes(b.tkhd_box) + opt_bytes(b.edts_box, |e: EdtsBox| edts_box_bytes(e)) + mdia_box_bytes(b.mdia_box)
        + unknown_boxes_bytes(b.unknown_boxes@)
}

/// A `trak` box of `b`.
#[verifier::opaque]
pub open spec fn trak_box_bytes(b: TrakBox) -> Seq<u8> {
    box_bytes(BoxType::Normal([0x74u8, 0x72, 0x61, 0x6b]), trak_payload(b))
}

impl TrakBox {
    /// Encodes the box. Fails with [`ErrorKind::InvalidInput`] unless
    /// [`stbl_encode_ok`] holds of its `stbl`.
    pub fn encode(&self) -> (r: Result<Vec<u8>, Error>)
        requires
            trak_encode_pre(*self),
            trak_box_bytes(*self).len() + 64 <= usize::MAX,
        ensures
            r is Ok <==> stbl_encode_ok(self.mdia_box.minf_box.stbl_box),
            r matches Ok(v) ==> v@ == trak_box_bytes(*self),
            r matches Err(e) ==> e.kind == ErrorKind::InvalidInput,
    {
        proof {
            reveal(trak_box_bytes);
            lemma_box_bytes_len(BoxType::Normal([0x74u8, 0x72, 0x61, 0x6b]), trak_payload(*self));
        }
        let mut payload: Vec<u8> = self.tkhd_box.encode();
        match &self.edts_box {
            None => {},
            Some(e) => {
                let b = e.encode();
                put_bytes(&mut payload, b.as_slice());
            },
        }
        let b = self.mdia_box.encode()?;
        put_bytes(&mut payload, b.as_slice());
        encode_unknown_boxes(&mut payload, &self.unknown_boxes);
        proof {
            assert(payload@ =~= trak_payload(*self));
        }
        let mut out: Vec<u8> = Vec::new();
        put_box(&mut out, &BoxType::Normal([0x74u8, 0x72, 0x61, 0x6b]), payload.as_slice());
        proof {
            reveal(trak_box_bytes);
        }
        Ok(out)
    }
}

/// Every track can be handed to its encoder.
pub open spec fn moov_encode_pre(b: MoovBox) -> bool {
    forall|i: int| 0 <= i < b.trak_boxes@.len() ==> trak_encode_pre(#[trigger] b.trak_boxes@[i])
}

/// When `moov` can be written: every track's `stbl` can.
pub open spec fn moov_encode_ok(b: MoovBox) -> bool {
    forall|i: int| 0 <= i < b.trak_boxes@.len() ==> stbl_encode_ok(
        (#[trigger] b.trak_boxes@[i]).mdia_box.minf_box.stbl_box,
    )
}

/// The `trak` boxes one after another.
pub open spec fn trak_boxes_bytes(ts: Seq<TrakBox>) -> Seq<u8> {
    concat_records(ts.map_values(|t: TrakBox| trak_box_bytes(t)))
}

/// The payload of `moov`: `mvhd`, the tracks, `mvex`, then the unknown children.
pub open spec fn moov_payload(b: MoovBox) -> Seq<u8> {
    mvhd_box_bytes(b.mvhd_box) + trak_boxes_bytes(b.trak_boxes@) + opt_bytes(
        b.mvex_box,
        |m: MvexBox| mvex_box_bytes(m),
    ) + unknown_boxes_bytes(b.unknown_boxes@)
}

/// A `moov` box of `b`.
pub open spec fn moov_box_bytes(b: MoovBox) -> Seq<u8> {
    box_bytes(BoxType::Normal([0x6du8, 0x6f, 0x6f, 0x76]), moov_payload(b))
}

impl MoovBox {
    /// Encodes the box. Fails with [`ErrorKind::InvalidInput`] unless
    /// [`moov_encode_ok`] holds.
    #[verifier::spinoff_prover]
    pub fn encode(&self) -> (r: Result<Vec<u8>, Error>)
        requires
            moov_encode_pre(*self),
            moov_box_bytes(*self).len() + 64 <= usize::MAX,
        ensures
            r is Ok <==> moov_encode_ok(*self),
            r matches Ok(v) ==> v@ == moov_box_bytes(*self),
            r matches Err(e) ==> e.kind == ErrorKind::InvalidInput,
    {
        let ghost recs = self.trak_boxes@.map_values(|t: TrakBox| trak_box_bytes(t));
        proof {
            lemma_box_bytes_len(BoxType::Normal([0x6du8, 0x6f, 0x6f, 0x76]), moov_payload(*self));
            assert(recs.take(0) =~= Seq::<Seq<u8>>::empty());
        }
        let mut payload: Vec<u8> = self.mvhd_box.encode();
        let ghost head = payload@;
        let mut i: usize = 0;
        while i < self.trak_boxes.len()
            invariant
                recs == self.trak_boxes@.map_values(|t: TrakBox| trak_box_bytes(t)),
                moov_encode_pre(*self),
                concat_records(recs).len() + 64 <= usize::MAX,
                i <= self.trak_boxes@.len(),
                forall|k: int| 0 <= k < i ==> stbl_encode_ok(
                    (#[trigger] self.trak_boxes@[k]).mdia_box.minf_box.stbl_box,
                ),
                payload@ == head + concat_records(recs.take(i as int)),
            decreases self.trak_boxes@.len() - i,
        {
            proof {
                lemma_concat_records_push(recs, i as int);
                lemma_concat_records_take_len(recs, i + 1);
                assert(trak_encode_pre(self.trak_boxes@[i as int]));
            }
            let b = match self.trak_boxes[i].encode() {
                Ok(b) => b,
                Err(e) => {
                    return Err(e);
                },
            };
            put_bytes(&mut payload, b.as_slice());
            proof {
                assert(payload@ =~= head + concat_records(recs.take(i + 1)));
            }
            i += 1;
        }
        proof {
            assert(recs.take(i as int) =~= recs);
        }
        match &self.mvex_box {
            None => {},
            Some(m) => {
                let b = m.encode();
                put_bytes(&mut payload, b.as_slice());
            },
        }
        encode_unknown_boxes(&mut payload, &self.unknown_boxes);
        proof {
            assert(payload@ =~= moov_payload(*self));
        }
        let mut out: Vec<u8> = Vec::new();
        put_box(&mut out, &BoxType::Normal([0x6du8, 0x6f, 0x6f, 0x76]), payload.as_slice());
        Ok(out)
    }
}

} // verus!
