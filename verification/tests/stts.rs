use mp4::boxes_moov_tree::{SttsBox, SttsEntry};
use mp4::error::ErrorKind;

#[test]
fn from_sample_deltas_aggregates_identical_deltas() {
    let stts = SttsBox::from_sample_deltas(&[10, 10, 10, 20, 20, 10, 1])
        .expect("no overflow on ordinary input");
    assert_eq!(
        stts.entries,
        [
            SttsEntry {
                sample_count: 3,
                sample_delta: 10,
            },
            SttsEntry {
                sample_count: 2,
                sample_delta: 20,
            },
            // a later, non-adjacent 10 starts a new run
            SttsEntry {
                sample_count: 1,
                sample_delta: 10,
            },
            SttsEntry {
                sample_count: 1,
                sample_delta: 1,
            },
        ]
    );
}

#[test]
fn push_sample_delta_accepts_u32_max_count() {
    let mut entries = Vec::from([SttsEntry {
        sample_count: u32::MAX - 1,
        sample_delta: 7,
    }]);
    SttsBox::push_sample_delta(&mut entries, 7).expect("a run may reach u32::MAX");
    assert_eq!(
        entries,
        [SttsEntry {
            sample_count: u32::MAX,
            sample_delta: 7,
        }]
    );
}

#[test]
fn push_sample_delta_rejects_overflow() {
    let mut entries = Vec::from([SttsEntry {
        sample_count: u32::MAX,
        sample_delta: 7,
    }]);
    let err = SttsBox::push_sample_delta(&mut entries, 7).expect_err("overflow must fail");
    assert_eq!(err.kind, ErrorKind::InvalidData);
    assert!(
        err.reason.contains("stts sample_count overflow"),
        "unexpected reason: {}",
        err.reason
    );
    // the entries are left as they were
    assert_eq!(
        entries,
        [SttsEntry {
            sample_count: u32::MAX,
            sample_delta: 7,
        }]
    );
}

#[test]
fn from_sample_deltas_empty_input_gives_no_entries() {
    let stts = SttsBox::from_sample_deltas(&[]).expect("empty input is fine");
    assert!(stts.entries.is_empty());
}

#[test]
fn push_sample_delta_starts_new_run_on_other_delta() {
    let mut entries = Vec::from([SttsEntry {
        sample_count: u32::MAX,
        sample_delta: 7,
    }]);
    SttsBox::push_sample_delta(&mut entries, 8).expect("a new run never overflows");
    assert_eq!(
        entries,
        [
            SttsEntry {
                sample_count: u32::MAX,
                sample_delta: 7,
            },
            SttsEntry {
                sample_count: 1,
                sample_delta: 8,
            },
        ]
    );
}

#[test]
fn stts_box_encode_decode_roundtrip() {
    let stts = SttsBox::from_sample_deltas(&[1000, 1000, 1001, 500]).unwrap();
    let bytes = stts.encode();
    // header (8) + version/flags (4) + count (4) + 3 entries of 8 bytes
    assert_eq!(bytes.len(), 8 + 4 + 4 + 3 * 8);
    assert_eq!(&bytes[4..8], b"stts");
    let (decoded, size) = SttsBox::decode(&bytes).unwrap();
    assert_eq!(size, bytes.len());
    assert_eq!(decoded, stts);
}
