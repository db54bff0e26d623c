use mp4::boxes::{BoxSize, BoxType, Either, SampleEntry, UnknownBox};
use mp4::boxes_moov_tree::{
    Co64Box, CslgBox, CttsBox, CttsEntry, SdtpBox, SdtpSampleFlags, StblBox, StcoBox, StscBox,
    StscEntry, StsdBox, StssBox, StszBox, SttsBox,
};
use mp4::error::ErrorKind;

fn boxed(code: &[u8; 4], payload: &[u8]) -> Vec<u8> {
    let mut v = ((8 + payload.len()) as u32).to_be_bytes().to_vec();
    v.extend_from_slice(code);
    v.extend_from_slice(payload);
    v
}

fn raw_entry() -> Vec<u8> {
    boxed(b"avc1", &[1, 2, 3, 4, 5, 6, 7, 8])
}

fn stsd_bytes() -> Vec<u8> {
    let mut p = vec![0, 0, 0, 0, 0, 0, 0, 1];
    p.extend(raw_entry());
    boxed(b"stsd", &p)
}

#[test]
fn ctts_roundtrip_both_versions() {
    let v0 = CttsBox {
        version: 0,
        entries: vec![
            CttsEntry { sample_count: 2, sample_offset: 1024 },
            CttsEntry { sample_count: 1, sample_offset: 0 },
        ],
    };
    let bytes = v0.encode().unwrap();
    assert_eq!(bytes.len(), 8 + 4 + 4 + 16);
    assert_eq!(&bytes[8..16], &[0, 0, 0, 0, 0, 0, 0, 2]);
    assert_eq!(CttsBox::decode(&bytes).unwrap(), (v0, bytes.len()));

    let v1 = CttsBox {
        version: 1,
        entries: vec![CttsEntry { sample_count: 1, sample_offset: -512 }],
    };
    let bytes = v1.encode().unwrap();
    assert_eq!(&bytes[8..12], &[1, 0, 0, 0]);
    assert_eq!(&bytes[20..24], &[0xff, 0xff, 0xfe, 0x00]);
    assert_eq!(CttsBox::decode(&bytes).unwrap(), (v1, bytes.len()));
}

#[test]
fn ctts_encode_rejects_offsets_the_version_cannot_hold() {
    let negative_v0 = CttsBox {
        version: 0,
        entries: vec![CttsEntry { sample_count: 1, sample_offset: -1 }],
    };
    assert_eq!(negative_v0.encode().unwrap_err().kind, ErrorKind::InvalidInput);
    let large_v1 = CttsBox {
        version: 1,
        entries: vec![CttsEntry { sample_count: 1, sample_offset: 1 << 31 }],
    };
    assert!(large_v1.encode().is_err());
    let v2 = CttsBox { version: 2, entries: vec![] };
    assert!(v2.encode().is_err());
    // version 0 reads offsets as unsigned
    let bytes = boxed(b"ctts", &[0, 0, 0, 0, 0, 0, 0, 1, 0, 0, 0, 1, 0xff, 0xff, 0xff, 0xff]);
    let (b, _) = CttsBox::decode(&bytes).unwrap();
    assert_eq!(b.entries[0].sample_offset, 0xffff_ffff);
    // version 2 is rejected on decode
    let bytes = boxed(b"ctts", &[2, 0, 0, 0, 0, 0, 0, 0]);
    assert_eq!(CttsBox::decode(&bytes).unwrap_err().kind, ErrorKind::InvalidData);
}

#[test]
fn cslg_roundtrip_both_versions() {
    let v0 = CslgBox {
        version: 0,
        composition_to_dts_shift: 1024,
        least_decode_to_display_delta: -512,
        greatest_decode_to_display_delta: 2048,
        composition_start_time: 0,
        composition_end_time: 90000,
    };
    let bytes = v0.encode().unwrap();
    assert_eq!(bytes.len(), 8 + 4 + 20);
    assert_eq!(&bytes[16..20], &[0xff, 0xff, 0xfe, 0x00]);
    assert_eq!(CslgBox::decode(&bytes).unwrap(), (v0, bytes.len()));

    let v1 = CslgBox { version: 1, composition_end_time: 1 << 40, ..v0 };
    let bytes = v1.encode().unwrap();
    assert_eq!(bytes.len(), 8 + 4 + 40);
    assert_eq!(CslgBox::decode(&bytes).unwrap(), (v1, bytes.len()));
    // 1 << 40 does not fit version 0
    let too_big = CslgBox { version: 0, ..v1 };
    assert_eq!(too_big.encode().unwrap_err().kind, ErrorKind::InvalidInput);
}

#[test]
fn sdtp_roundtrip_and_flags() {
    let flags = SdtpSampleFlags::from_fields(1, 2, 1, 0);
    assert_eq!(flags.get(), 0b01_10_01_00);
    assert_eq!(flags.is_leading(), 1);
    assert_eq!(flags.sample_depends_on(), 2);
    assert_eq!(flags.sample_is_depended_on(), 1);
    assert_eq!(flags.sample_has_redundancy(), 0);
    let b = SdtpBox { entries: vec![flags, SdtpSampleFlags::from_fields(0, 1, 0, 0)] };
    let bytes = b.encode();
    assert_eq!(bytes, boxed(b"sdtp", &[0, 0, 0, 0, 0x64, 0x10]));
    assert_eq!(SdtpBox::decode(&bytes).unwrap(), (b, bytes.len()));
    assert!(SdtpBox::decode(&boxed(b"sdtp", &[1, 0, 0, 0])).is_err());
}

#[test]
fn list_boxes_roundtrip() {
    let stco = StcoBox { chunk_offsets: vec![48, 1000] };
    let bytes = stco.encode();
    assert_eq!(bytes, boxed(b"stco", &[0, 0, 0, 0, 0, 0, 0, 2, 0, 0, 0, 48, 0, 0, 0x03, 0xe8]));
    assert_eq!(StcoBox::decode(&bytes).unwrap(), (stco, bytes.len()));

    let co64 = Co64Box { chunk_offsets: vec![1 << 33] };
    let bytes = co64.encode();
    assert_eq!(Co64Box::decode(&bytes).unwrap(), (co64, bytes.len()));

    let stss = StssBox { sample_numbers: vec![1, 31] };
    let bytes = stss.encode();
    assert_eq!(StssBox::decode(&bytes).unwrap(), (stss, bytes.len()));
    // sample number 0 is rejected
    let zero = boxed(b"stss", &[0, 0, 0, 0, 0, 0, 0, 1, 0, 0, 0, 0]);
    assert_eq!(StssBox::decode(&zero).unwrap_err().kind, ErrorKind::InvalidData);
}

#[test]
fn stsz_and_stsc_roundtrip() {
    let fixed = StszBox::Fixed { sample_size: 100, sample_count: 3 };
    let bytes = fixed.encode();
    assert_eq!(StszBox::decode(&bytes).unwrap(), (fixed, bytes.len()));
    let variable = StszBox::Variable { entry_sizes: vec![10, 20, 30] };
    let bytes = variable.encode();
    assert_eq!(StszBox::decode(&bytes).unwrap(), (variable, bytes.len()));

    let stsc = StscBox {
        entries: vec![
            StscEntry { first_chunk: 1, sample_per_chunk: 2, sample_description_index: 1 },
            StscEntry { first_chunk: 3, sample_per_chunk: 1, sample_description_index: 1 },
        ],
    };
    let bytes = stsc.encode();
    assert_eq!(bytes.len(), 8 + 8 + 24);
    assert_eq!(StscBox::decode(&bytes).unwrap(), (stsc, bytes.len()));
}

#[test]
fn decode_rejects_other_box_types_and_truncation() {
    let stco = StcoBox { chunk_offsets: vec![1] }.encode();
    assert_eq!(Co64Box::decode(&stco).unwrap_err().kind, ErrorKind::InvalidData);
    assert!(StcoBox::decode(&stco[..stco.len() - 1]).is_err());
    // entry count larger than the box
    let short = boxed(b"stts", &[0, 0, 0, 0, 0, 0, 0, 2, 0, 0, 0, 1, 0, 0, 0, 1]);
    assert!(SttsBox::decode(&short).is_err());
}

#[test]
fn unknown_box_keeps_type_size_and_payload() {
    let bytes = boxed(b"free", &[9, 9, 9]);
    let (u, n) = UnknownBox::decode(&bytes).unwrap();
    assert_eq!(n, 11);
    assert_eq!(u.box_type, BoxType::Normal(*b"free"));
    assert_eq!(u.box_size, BoxSize::U32(11));
    assert_eq!(u.payload, vec![9, 9, 9]);
    // largesize header
    let mut large = vec![0, 0, 0, 1];
    large.extend_from_slice(b"skip");
    large.extend_from_slice(&17u64.to_be_bytes());
    large.push(7);
    let (u, n) = UnknownBox::decode(&large).unwrap();
    assert_eq!((u.box_size, n), (BoxSize::U64(17), 17));
    assert_eq!(u.payload, vec![7]);
    assert!(UnknownBox::decode(&bytes[..7]).is_err());
}

#[test]
fn stsd_keeps_sample_entries_raw() {
    let bytes = stsd_bytes();
    let (stsd, n) = StsdBox::decode(&bytes).unwrap();
    assert_eq!(n, bytes.len());
    assert_eq!(stsd.entries.len(), 1);
    match &stsd.entries[0] {
        SampleEntry::Unknown(u) => {
            assert_eq!(u.box_type, BoxType::Normal(*b"avc1"));
            assert_eq!(u.payload, vec![1, 2, 3, 4, 5, 6, 7, 8]);
        }
        other => panic!("unexpected entry {:?}", other),
    }
    // entry_count larger than what the box holds
    let mut p = vec![0, 0, 0, 0, 0, 0, 0, 2];
    p.extend(raw_entry());
    assert!(StsdBox::decode(&boxed(b"stsd", &p)).is_err());
}

fn stbl_children() -> Vec<Vec<u8>> {
    vec![
        stsd_bytes(),
        SttsBox::from_sample_deltas(&[1000, 1000, 1000]).unwrap().encode(),
        StscBox {
            entries: vec![StscEntry { first_chunk: 1, sample_per_chunk: 3, sample_description_index: 1 }],
        }
        .encode(),
        StszBox::Variable { entry_sizes: vec![5, 6, 7] }.encode(),
        StcoBox { chunk_offsets: vec![100] }.encode(),
    ]
}

fn stbl_of(children: &[Vec<u8>]) -> Vec<u8> {
    boxed(b"stbl", &children.concat())
}

#[test]
fn stbl_decode_fills_fields_from_children() {
    let mut children = stbl_children();
    children.push(StssBox { sample_numbers: vec![1] }.encode());
    children.push(boxed(b"free", &[0]));
    // a second stts is kept raw
    children.push(SttsBox::from_sample_deltas(&[7]).unwrap().encode());
    let bytes = stbl_of(&children);
    let (stbl, n) = StblBox::decode(&bytes).unwrap();
    assert_eq!(n, bytes.len());
    assert_eq!(stbl.stts_box.entries.len(), 1);
    assert_eq!(stbl.stts_box.entries[0].sample_count, 3);
    assert_eq!(stbl.stsc_box.entries[0].sample_per_chunk, 3);
    assert_eq!(stbl.stsz_box, StszBox::Variable { entry_sizes: vec![5, 6, 7] });
    assert_eq!(stbl.stco_or_co64_box, Either::A(StcoBox { chunk_offsets: vec![100] }));
    assert_eq!(stbl.stss_box, Some(StssBox { sample_numbers: vec![1] }));
    assert_eq!(stbl.ctts_box, None);
    assert_eq!(stbl.cslg_box, None);
    assert_eq!(stbl.sdtp_box, None);
    assert_eq!(stbl.stsd_box.entries.len(), 1);
    assert_eq!(stbl.unknown_boxes.len(), 2);
    assert_eq!(stbl.unknown_boxes[0].box_type, BoxType::Normal(*b"free"));
    assert_eq!(stbl.unknown_boxes[1].box_type, BoxType::Normal(*b"stts"));
}

#[test]
fn stbl_decode_prefers_stco_and_needs_mandatory_children() {
    let mut children = stbl_children();
    children.push(Co64Box { chunk_offsets: vec![200] }.encode());
    let (stbl, _) = StblBox::decode(&stbl_of(&children)).unwrap();
    assert!(matches!(stbl.stco_or_co64_box, Either::A(_)));

    // co64 alone
    let mut children = stbl_children();
    children[4] = Co64Box { chunk_offsets: vec![200] }.encode();
    let (stbl, _) = StblBox::decode(&stbl_of(&children)).unwrap();
    assert_eq!(stbl.stco_or_co64_box, Either::B(Co64Box { chunk_offsets: vec![200] }));

    // each mandatory child missing in turn
    for missing in 0..5 {
        let mut children = stbl_children();
        children.remove(missing);
        let err = StblBox::decode(&stbl_of(&children)).unwrap_err();
        assert_eq!(err.kind, ErrorKind::InvalidData);
    }

    // a broken first ctts fails the whole box
    let mut children = stbl_children();
    children.push(boxed(b"ctts", &[5, 0, 0, 0, 0, 0, 0, 0]));
    assert!(StblBox::decode(&stbl_of(&children)).is_err());

    // a child that runs past the payload
    let mut bytes = stbl_of(&stbl_children());
    bytes.extend_from_slice(&[0, 0, 0, 9, b'f', b'r', b'e', b'e']);
    let size = bytes.len() as u32;
    bytes[..4].copy_from_slice(&size.to_be_bytes());
    assert!(StblBox::decode(&bytes).is_err());
}
