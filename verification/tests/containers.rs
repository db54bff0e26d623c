use mp4::boxes::{BoxSize, BoxType, Either, FixedPointNumber, SampleEntry, UnknownBox};
use mp4::boxes_moov_tree::{
    Co64Box, CslgBox, CttsBox, CttsEntry, DinfBox, DrefBox, EdtsBox, ElstBox, ElstEntry, HdlrBox, MdhdBox,
    MdiaBox, MediaHeader, MehdBox, MinfBox, MoovBox, MvexBox, MvhdBox, SdtpBox, SdtpSampleFlags, SmhdBox,
    StblBox, StcoBox, StscBox, StscEntry, StsdBox, StssBox, StszBox, SttsBox, TkhdBox, TrakBox, TrexBox,
    UrlBox, VmhdBox,
};
use mp4::error::ErrorKind;

fn boxed(code: &[u8; 4], parts: &[Vec<u8>]) -> Vec<u8> {
    let payload = parts.concat();
    let mut v = ((8 + payload.len()) as u32).to_be_bytes().to_vec();
    v.extend_from_slice(code);
    v.extend(payload);
    v
}

fn dref() -> Vec<u8> {
    boxed(b"dref", &[vec![0, 0, 0, 0, 0, 0, 0, 1], UrlBox { location: None }.encode()])
}

fn stbl() -> Vec<u8> {
    let entry = boxed(b"avc1", &[vec![0; 8]]);
    let stsd = boxed(b"stsd", &[vec![0, 0, 0, 0, 0, 0, 0, 1], entry]);
    boxed(
        b"stbl",
        &[
            stsd,
            SttsBox::from_sample_deltas(&[3000, 3000]).unwrap().encode(),
            StscBox {
                entries: vec![StscEntry {
                    first_chunk: 1,
                    sample_per_chunk: 2,
                    sample_description_index: 1,
                }],
            }
            .encode(),
            StszBox::Fixed { sample_size: 10, sample_count: 2 }.encode(),
            StcoBox { chunk_offsets: vec![48] }.encode(),
        ],
    )
}

fn minf(media_header: Vec<u8>) -> Vec<u8> {
    boxed(b"minf", &[media_header, boxed(b"dinf", &[dref()]), stbl()])
}

fn mdia() -> Vec<u8> {
    let mdhd = MdhdBox {
        creation_time: 0,
        modification_time: 0,
        timescale: 90000,
        duration: 6000,
        language: *b"und",
    };
    let hdlr = HdlrBox { handler_type: *b"vide", name: vec![0] };
    boxed(
        b"mdia",
        &[mdhd.encode(), hdlr.encode(), minf(VmhdBox { graphicsmode: 0, opcolor: [0; 3] }.encode())],
    )
}

fn tkhd(track_id: u32) -> Vec<u8> {
    TkhdBox {
        flag_track_enabled: true,
        flag_track_in_movie: true,
        flag_track_in_preview: false,
        flag_track_size_is_aspect_ratio: false,
        creation_time: 0,
        modification_time: 0,
        track_id,
        duration: 2000,
        layer: 0,
        alternate_group: 0,
        volume: FixedPointNumber { integer: 0, fraction: 0 },
        matrix: [0x10000, 0, 0, 0, 0x10000, 0, 0, 0, 0x4000_0000],
        width: FixedPointNumber { integer: 640, fraction: 0 },
        height: FixedPointNumber { integer: 360, fraction: 0 },
    }
    .encode()
}

fn edts() -> Vec<u8> {
    let elst = ElstBox {
        entries: vec![ElstEntry {
            edit_duration: 2000,
            media_time: 0,
            media_rate: FixedPointNumber { integer: 1, fraction: 0 },
        }],
    };
    boxed(b"edts", &[elst.encode()])
}

fn mvhd() -> Vec<u8> {
    MvhdBox {
        creation_time: 0,
        modification_time: 0,
        timescale: 1000,
        duration: 2000,
        rate: FixedPointNumber { integer: 1, fraction: 0 },
        volume: FixedPointNumber { integer: 1, fraction: 0 },
        matrix: [0x10000, 0, 0, 0, 0x10000, 0, 0, 0, 0x4000_0000],
        next_track_id: 3,
    }
    .encode()
}

fn mvex() -> Vec<u8> {
    let trex = |id: u32| {
        TrexBox {
            track_id: id,
            default_sample_description_index: 1,
            default_sample_duration: 0,
            default_sample_size: 0,
            default_sample_flags: 0,
        }
        .encode()
    };
    boxed(b"mvex", &[MehdBox { fragment_duration: 2000 }.encode(), trex(1), trex(2)])
}

#[test]
fn dref_and_dinf_decode() {
    let (d, n) = DrefBox::decode(&dref()).unwrap();
    assert_eq!(n, dref().len());
    assert_eq!(d.url_box, Some(UrlBox { location: None }));
    assert!(d.unknown_boxes.is_empty());
    let (dinf, _) = DinfBox::decode(&boxed(b"dinf", &[dref()])).unwrap();
    assert_eq!(dinf.dref_box, d);
    // dinf without dref
    let err = DinfBox::decode(&boxed(b"dinf", &[boxed(b"free", &[])])).unwrap_err();
    assert_eq!(err.kind, ErrorKind::InvalidData);
}

#[test]
fn edts_keeps_first_elst_and_raw_rest() {
    let mut children = vec![];
    let e = edts();
    children.push(e[8..].to_vec());
    children.push(boxed(b"free", &[vec![1, 2]]));
    let (b, _) = EdtsBox::decode(&boxed(b"edts", &children)).unwrap();
    assert_eq!(b.elst_box.unwrap().entries[0].edit_duration, 2000);
    assert_eq!(b.unknown_boxes.len(), 1);
    assert_eq!(b.unknown_boxes[0].payload, vec![1, 2]);
}

#[test]
fn minf_reads_media_header_dinf_and_stbl() {
    let (m, _) = MinfBox::decode(&minf(SmhdBox { balance: FixedPointNumber { integer: 0, fraction: 0 } }.encode()))
        .unwrap();
    assert!(matches!(m.media_header, Some(MediaHeader::Smhd(_))));
    assert_eq!(m.stbl_box.stts_box.entries[0].sample_count, 2);
    assert_eq!(m.dinf_box.dref_box.url_box, Some(UrlBox { location: None }));
    // without stbl
    let no_stbl = boxed(b"minf", &[boxed(b"dinf", &[dref()])]);
    assert!(MinfBox::decode(&no_stbl).is_err());
    // a media header is optional
    let bare = boxed(b"minf", &[boxed(b"dinf", &[dref()]), stbl()]);
    assert_eq!(MinfBox::decode(&bare).unwrap().0.media_header, None);
}

#[test]
fn mdia_and_trak_decode() {
    let (m, _) = MdiaBox::decode(&mdia()).unwrap();
    assert_eq!(m.mdhd_box.timescale, 90000);
    assert_eq!(m.hdlr_box.handler_type, *b"vide");
    assert!(matches!(m.minf_box.media_header, Some(MediaHeader::Vmhd(_))));
    let (t, _) = TrakBox::decode(&boxed(b"trak", &[tkhd(1), edts(), mdia()])).unwrap();
    assert_eq!(t.tkhd_box.track_id, 1);
    assert!(t.edts_box.is_some());
    // trak without mdia
    assert!(TrakBox::decode(&boxed(b"trak", &[tkhd(1)])).is_err());
}

#[test]
fn moov_collects_every_trak() {
    let trak = |id| boxed(b"trak", &[tkhd(id), mdia()]);
    let moov = boxed(b"moov", &[mvhd(), trak(1), trak(2), mvex(), boxed(b"udta", &[])]);
    let (m, n) = MoovBox::decode(&moov).unwrap();
    assert_eq!(n, moov.len());
    assert_eq!(m.mvhd_box.timescale, 1000);
    assert_eq!(m.trak_boxes.len(), 2);
    assert_eq!(m.trak_boxes[1].tkhd_box.track_id, 2);
    let mvex = m.mvex_box.unwrap();
    assert_eq!(mvex.mehd_box, Some(MehdBox { fragment_duration: 2000 }));
    assert_eq!(mvex.trex_boxes.len(), 2);
    assert_eq!(m.unknown_boxes.len(), 1);
    assert_eq!(m.unknown_boxes[0].box_type, BoxType::Normal(*b"udta"));
}

#[test]
fn moov_requires_mvhd_and_valid_traks() {
    let trak = boxed(b"trak", &[tkhd(1), mdia()]);
    assert_eq!(
        MoovBox::decode(&boxed(b"moov", &[trak.clone()])).unwrap_err().kind,
        ErrorKind::InvalidData
    );
    // a trak without tkhd fails the moov
    let bad = boxed(b"trak", &[mdia()]);
    assert!(MoovBox::decode(&boxed(b"moov", &[mvhd(), trak, bad])).is_err());
    // an mvex whose trex is cut short
    let short_trex = boxed(b"trex", &[vec![0, 0, 0, 0, 0, 0, 0, 1]]);
    let moov = boxed(b"moov", &[mvhd(), boxed(b"mvex", &[short_trex])]);
    assert!(MoovBox::decode(&moov).is_err());
    assert!(MvexBox::decode(&mvex()).is_ok());
}

fn moov_bytes() -> Vec<u8> {
    let trak = |id| boxed(b"trak", &[tkhd(id), edts(), mdia()]);
    boxed(b"moov", &[mvhd(), trak(1), trak(2), mvex(), boxed(b"udta", &[vec![9]])])
}

#[test]
fn moov_written_back_as_read() {
    let moov = moov_bytes();
    let (m, _) = MoovBox::decode(&moov).unwrap();
    assert_eq!(m.encode().unwrap(), moov);
    let t = &m.trak_boxes[0];
    assert_eq!(t.encode().unwrap(), boxed(b"trak", &[tkhd(1), edts(), mdia()]));
    assert_eq!(t.mdia_box.encode().unwrap(), mdia());
    assert_eq!(
        t.mdia_box.minf_box.encode().unwrap(),
        minf(VmhdBox { graphicsmode: 0, opcolor: [0; 3] }.encode())
    );
    assert_eq!(t.mdia_box.minf_box.stbl_box.encode().unwrap(), stbl());
}

#[test]
fn moov_encode_fails_on_unwritable_ctts() {
    let (mut m, _) = MoovBox::decode(&moov_bytes()).unwrap();
    m.trak_boxes[1].mdia_box.minf_box.stbl_box.ctts_box = Some(CttsBox { version: 2, entries: vec![] });
    assert_eq!(m.encode().unwrap_err().kind, ErrorKind::InvalidInput);
    m.trak_boxes[1].mdia_box.minf_box.stbl_box.ctts_box = Some(CttsBox { version: 0, entries: vec![] });
    let bytes = m.encode().unwrap();
    let (again, n) = MoovBox::decode(&bytes).unwrap();
    assert_eq!(n, bytes.len());
    assert_eq!(again, m);
}

#[test]
fn stbl_with_every_table_written_back() {
    let entry = UnknownBox { box_type: BoxType::Normal(*b"mp4a"), box_size: BoxSize::U32(10), payload: vec![1, 2] };
    let extra = UnknownBox { box_type: BoxType::Normal(*b"sbgp"), box_size: BoxSize::U64(19), payload: vec![3, 4, 5] };
    let stbl = StblBox {
        stsd_box: StsdBox { entries: vec![SampleEntry::Unknown(entry)] },
        stts_box: SttsBox::from_sample_deltas(&[10, 10, 20]).unwrap(),
        ctts_box: Some(CttsBox {
            version: 1,
            entries: vec![CttsEntry { sample_count: 3, sample_offset: -5 }],
        }),
        cslg_box: Some(CslgBox {
            version: 0,
            composition_to_dts_shift: 5,
            least_decode_to_display_delta: -5,
            greatest_decode_to_display_delta: 0,
            composition_start_time: 0,
            composition_end_time: 40,
        }),
        stsc_box: StscBox {
            entries: vec![StscEntry { first_chunk: 1, sample_per_chunk: 3, sample_description_index: 1 }],
        },
        stsz_box: StszBox::Variable { entry_sizes: vec![4, 5, 6] },
        stco_or_co64_box: Either::B(Co64Box { chunk_offsets: vec![0x1_0000_0000] }),
        stss_box: Some(StssBox { sample_numbers: vec![1, 3] }),
        sdtp_box: Some(SdtpBox { entries: vec![SdtpSampleFlags(0x20), SdtpSampleFlags(0x10), SdtpSampleFlags(0)] }),
        unknown_boxes: vec![extra],
    };
    let bytes = stbl.encode().unwrap();
    let (back, n) = StblBox::decode(&bytes).unwrap();
    assert_eq!(n, bytes.len());
    assert_eq!(back, stbl);
    // the tables follow one another in the order the encoder writes them
    let order: Vec<&[u8]> = vec![b"stsd", b"stts", b"ctts", b"cslg", b"stsc", b"stsz", b"co64", b"stss", b"sdtp", b"sbgp"];
    let mut at = 8;
    for code in order {
        assert_eq!(&bytes[at + 4..at + 8], code);
        let size = u32::from_be_bytes([bytes[at], bytes[at + 1], bytes[at + 2], bytes[at + 3]]) as usize;
        let size = if size == 1 {
            u64::from_be_bytes(bytes[at + 8..at + 16].try_into().unwrap()) as usize
        } else {
            size
        };
        at += size;
    }
    assert_eq!(at, bytes.len());
}
