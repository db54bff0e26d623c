use mp4::auxiliary::SampleTableAccessorError;
use mp4::boxes::BoxType;

#[test]
fn accessor_error_messages() {
    let e = SampleTableAccessorError::InconsistentSampleCount {
        stts_sample_count: 10,
        other_box_type: BoxType::Normal(*b"stsz"),
        other_sample_count: 9,
    };
    assert_eq!(
        e.to_string(),
        "Sample count in `stts` box is 10, but `stsz` has sample count 9"
    );
    let e = SampleTableAccessorError::MissingSampleEntry {
        stsc_entry_index: 0,
        sample_description_index: 2,
        sample_entry_count: 1,
    };
    assert_eq!(
        e.to_string(),
        "0-th entry in `stsc` box refers to a missing sample entry 2 (sample entry count is 1)"
    );
    let e = SampleTableAccessorError::SampleDataOffsetOverflow {
        sample_index: 3,
        accumulated_offset: u64::MAX,
        sample_data_size: 1,
    };
    assert_eq!(
        e.to_string(),
        "Sample data offset overflows u64 at sample 3 (accumulated 18446744073709551615, adding 1)"
    );
    assert_eq!(
        SampleTableAccessorError::ChunksExistButNoSamples { chunk_count: 1 }.to_string(),
        "Chunks exist (1 chunks) but stsc has no entries"
    );
    let mut user = [0u8; 16];
    user[0] = 0xab;
    let e = SampleTableAccessorError::SampleCountOverflow {
        box_type: BoxType::Uuid(user),
        accumulated_sample_count: u32::MAX,
        entry_sample_count: 1,
    };
    assert_eq!(
        e.to_string(),
        "Total sample count in `ab000000000000000000000000000000` box overflows u32 (accumulated 4294967295, adding 1)"
    );
}
