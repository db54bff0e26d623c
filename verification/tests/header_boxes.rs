use mp4::boxes::FixedPointNumber;
use mp4::boxes_moov_tree::{
    ElstBox, ElstEntry, EsdsBox, HdlrBox, MdhdBox, MehdBox, MvhdBox, NmhdBox, SmhdBox, SthdBox,
    TkhdBox, TrexBox, UrlBox, VmhdBox,
};
use mp4::error::ErrorKind;

const IDENTITY: [i32; 9] = [0x10000, 0, 0, 0, 0x10000, 0, 0, 0, 0x4000_0000];

fn mvhd(duration: u64) -> MvhdBox {
    MvhdBox {
        creation_time: 3_600_000_000,
        modification_time: 3_600_000_001,
        timescale: 1000,
        duration,
        rate: FixedPointNumber { integer: 1, fraction: 0 },
        volume: FixedPointNumber { integer: 1, fraction: 0 },
        matrix: IDENTITY,
        next_track_id: 3,
    }
}

#[test]
fn mvhd_version0_layout_and_roundtrip() {
    let b = mvhd(5000);
    assert_eq!(b.full_box_version(), 0);
    let bytes = b.encode();
    // header 8 + version/flags 4 + 4 * 4 + rate 4 + volume 2 + reserved 10 + matrix 36 + 24 + 4
    assert_eq!(bytes.len(), 108);
    assert_eq!(&bytes[4..8], b"mvhd");
    assert_eq!(&bytes[8..12], &[0, 0, 0, 0]);
    assert_eq!(&bytes[20..24], &1000u32.to_be_bytes());
    assert_eq!(MvhdBox::decode(&bytes).unwrap(), (b, 108));
}

#[test]
fn mvhd_switches_to_version1_for_large_durations() {
    let b = mvhd(1 << 33);
    assert_eq!(b.full_box_version(), 1);
    let bytes = b.encode();
    assert_eq!(bytes.len(), 120);
    assert_eq!(bytes[8], 1);
    assert_eq!(MvhdBox::decode(&bytes).unwrap(), (b, 120));
}

#[test]
fn mvhd_rejects_zero_timescale() {
    let mut b = mvhd(1);
    b.timescale = 0;
    let bytes = b.encode();
    assert_eq!(MvhdBox::decode(&bytes).unwrap_err().kind, ErrorKind::InvalidData);
}

#[test]
fn tkhd_flags_and_roundtrip() {
    let b = TkhdBox {
        flag_track_enabled: true,
        flag_track_in_movie: true,
        flag_track_in_preview: false,
        flag_track_size_is_aspect_ratio: false,
        creation_time: 0,
        modification_time: 0,
        track_id: 1,
        duration: 90000,
        layer: -1,
        alternate_group: 0,
        volume: FixedPointNumber { integer: 0, fraction: 0 },
        matrix: IDENTITY,
        width: FixedPointNumber { integer: 1920, fraction: 0 },
        height: FixedPointNumber { integer: 1080, fraction: 0 },
    };
    assert_eq!(b.full_box_flags(), 3);
    let bytes = b.encode();
    assert_eq!(bytes.len(), 92);
    assert_eq!(&bytes[8..12], &[0, 0, 0, 3]);
    assert_eq!(TkhdBox::decode(&bytes).unwrap(), (b, 92));
}

#[test]
fn mdhd_language_packing() {
    let b = MdhdBox {
        creation_time: 0,
        modification_time: 0,
        timescale: 48000,
        duration: 96000,
        language: *b"und",
    };
    let bytes = b.encode();
    assert_eq!(bytes.len(), 32);
    assert_eq!(&bytes[28..30], &[0x55, 0xc4]);
    assert_eq!(MdhdBox::decode(&bytes).unwrap(), (b, 32));
}

#[test]
fn hdlr_and_esds_roundtrip() {
    let h = HdlrBox { handler_type: *b"vide", name: b"VideoHandler\0".to_vec() };
    let bytes = h.encode();
    assert_eq!(bytes.len(), 8 + 24 + 13);
    assert_eq!(&bytes[16..20], b"vide");
    assert_eq!(HdlrBox::decode(&bytes).unwrap(), (h, 45));
    let e = EsdsBox { es: vec![3, 2, 0, 1] };
    let bytes = e.encode();
    assert_eq!(EsdsBox::decode(&bytes).unwrap(), (e, bytes.len()));
}

#[test]
fn media_headers_roundtrip() {
    let v = VmhdBox { graphicsmode: 0, opcolor: [0, 0, 0] };
    let bytes = v.encode();
    assert_eq!(&bytes[8..12], &[0, 0, 0, 1]);
    assert_eq!(VmhdBox::decode(&bytes).unwrap(), (v, 20));
    let s = SmhdBox { balance: FixedPointNumber { integer: 0, fraction: 0 } };
    let bytes = s.encode();
    assert_eq!(SmhdBox::decode(&bytes).unwrap(), (s, 16));
    let bytes = SthdBox.encode();
    assert_eq!(bytes.len(), 12);
    assert_eq!(SthdBox::decode(&bytes).unwrap(), (SthdBox, 12));
    let bytes = NmhdBox.encode();
    assert_eq!(NmhdBox::decode(&bytes).unwrap(), (NmhdBox, 12));
}

#[test]
fn mehd_and_trex_roundtrip() {
    let m = MehdBox { fragment_duration: 1 << 40 };
    assert_eq!(m.full_box_version(), 1);
    let bytes = m.encode();
    assert_eq!(bytes.len(), 20);
    assert_eq!(MehdBox::decode(&bytes).unwrap(), (m, 20));
    let small = MehdBox { fragment_duration: 10 };
    assert_eq!(small.encode().len(), 16);
    let t = TrexBox {
        track_id: 1,
        default_sample_description_index: 1,
        default_sample_duration: 1024,
        default_sample_size: 0,
        default_sample_flags: 0x0101_0000,
    };
    let bytes = t.encode();
    assert_eq!(bytes.len(), 32);
    assert_eq!(TrexBox::decode(&bytes).unwrap(), (t, 32));
}

#[test]
fn url_location_or_this_file() {
    let local = UrlBox { location: None };
    assert_eq!(local.full_box_flags(), 1);
    let bytes = local.encode();
    assert_eq!(bytes, vec![0, 0, 0, 12, b'u', b'r', b'l', b' ', 0, 0, 0, 1]);
    assert_eq!(UrlBox::decode(&bytes).unwrap(), (local, 12));
    let remote = UrlBox { location: Some(b"http://a".to_vec()) };
    let bytes = remote.encode();
    assert_eq!(*bytes.last().unwrap(), 0);
    assert_eq!(UrlBox::decode(&bytes).unwrap(), (remote, bytes.len()));
    // flags 0 without a terminating NUL
    let broken = vec![0, 0, 0, 14, b'u', b'r', b'l', b' ', 0, 0, 0, 0, b'a', b'b'];
    assert_eq!(UrlBox::decode(&broken).unwrap_err().kind, ErrorKind::InvalidData);
}

#[test]
fn elst_versions() {
    let v0 = ElstBox {
        entries: vec![ElstEntry {
            edit_duration: 1000,
            media_time: -1,
            media_rate: FixedPointNumber { integer: 1, fraction: 0 },
        }],
    };
    assert_eq!(v0.full_box_version(), 0);
    let bytes = v0.encode();
    assert_eq!(bytes.len(), 8 + 8 + 12);
    assert_eq!(&bytes[20..24], &[0xff, 0xff, 0xff, 0xff]);
    assert_eq!(ElstBox::decode(&bytes).unwrap(), (v0, 28));
    let v1 = ElstBox {
        entries: vec![ElstEntry {
            edit_duration: 1 << 35,
            media_time: 0,
            media_rate: FixedPointNumber { integer: 1, fraction: 0 },
        }],
    };
    assert_eq!(v1.full_box_version(), 1);
    let bytes = v1.encode();
    assert_eq!(bytes.len(), 8 + 8 + 20);
    assert_eq!(ElstBox::decode(&bytes).unwrap(), (v1, 36));
}
