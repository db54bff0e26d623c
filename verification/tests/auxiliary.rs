use mp4::auxiliary::{SampleTableAccessor, SampleTableAccessorError};
use mp4::boxes::{BoxSize, BoxType, Either, SampleEntry, UnknownBox};
use mp4::boxes_moov_tree::{
    Co64Box, CttsBox, CttsEntry, StblBox, StcoBox, StscBox, StscEntry, StsdBox, StssBox, StszBox,
    SttsBox, SttsEntry,
};

fn test_entry() -> SampleEntry {
    SampleEntry::Unknown(UnknownBox {
        box_type: BoxType::Normal(*b"test"),
        box_size: BoxSize::U32(8),
        payload: Vec::new(),
    })
}

fn stsc(entries: &[(u32, u32, u32)]) -> StscBox {
    StscBox {
        entries: entries
            .iter()
            .map(
                |&(first_chunk, sample_per_chunk, sample_description_index)| StscEntry {
                    first_chunk,
                    sample_per_chunk,
                    sample_description_index,
                },
            )
            .collect(),
    }
}

fn table(
    stts: SttsBox,
    stsc_box: StscBox,
    stsz_box: StszBox,
    chunk_offsets: Vec<u32>,
) -> StblBox {
    StblBox {
        stsd_box: StsdBox {
            entries: vec![test_entry()],
        },
        stts_box: stts,
        stsc_box,
        stsz_box,
        stco_or_co64_box: Either::A(StcoBox { chunk_offsets }),
        stss_box: None,
        ctts_box: None,
        cslg_box: None,
        sdtp_box: None,
        unknown_boxes: Vec::new(),
    }
}

#[test]
fn sample_table_accessor() {
    let sample_durations = [10, 5, 5, 20, 20, 20, 1, 1, 1, 1];
    let chunk_offsets = [100, 200, 300, 400];
    let stbl_box = StblBox {
        stsd_box: StsdBox {
            entries: vec![test_entry()],
        },
        stts_box: SttsBox::from_sample_deltas(&sample_durations)
            .expect("short valid input cannot overflow sample_count"),
        stsc_box: stsc(&[(1, 2, 1), (3, 3, 1)]),
        stsz_box: StszBox::Variable {
            entry_sizes: vec![1, 2, 3, 4, 5, 6, 7, 8, 9, 10],
        },
        stco_or_co64_box: Either::A(StcoBox {
            chunk_offsets: chunk_offsets.to_vec(),
        }),
        stss_box: Some(StssBox {
            sample_numbers: vec![1, 3, 5, 7, 9],
        }),
        ctts_box: None,
        cslg_box: None,
        sdtp_box: None,
        unknown_boxes: Vec::new(),
    };

    let sample_table = SampleTableAccessor::new(&stbl_box).expect("bug");
    assert_eq!(sample_table.sample_count(), 10);
    assert_eq!(sample_table.chunk_count(), 4);

    let sample_chunks = [1, 1, 2, 2, 3, 3, 3, 4, 4, 4];
    let sample_offsets = [100, 101, 200, 203, 300, 305, 311, 400, 408, 417];
    for i in 0..10 {
        let sample = sample_table.get_sample(i as u32 + 1).expect("bug");
        assert_eq!(sample.duration(), sample_durations[i]);
        assert_eq!(
            sample.timestamp(),
            sample_durations.iter().copied().take(i).sum::<u32>() as u64
        );
        assert_eq!(sample.data_size(), i as u32 + 1);
        assert_eq!(sample.data_offset(), sample_offsets[i] as u64);
        assert_eq!(sample.is_sync_sample(), (i + 1) % 2 == 1);
        assert_eq!(
            sample.sync_sample().map(|s| s.index()),
            Some(1 + i as u32 / 2 * 2)
        );
        assert_eq!(sample.chunk().index(), sample_chunks[i]);
    }
    assert!(sample_table.get_sample(11).is_none());

    let sample_counts = [2, 2, 3, 3];
    for i in 0..4 {
        let chunk = sample_table.get_chunk(i as u32 + 1).expect("bug");
        assert_eq!(chunk.offset(), chunk_offsets[i] as u64);
        assert_eq!(chunk.sample_entry().box_type().as_bytes(), b"test");
        assert_eq!(chunk.sample_count(), sample_counts[i]);
        assert_eq!(chunk.samples().len(), sample_counts[i] as usize);
    }
    assert!(sample_table.get_chunk(5).is_none());

    let file_duraiton = sample_durations.iter().copied().sum::<u32>() as u64;
    for t in 0..file_duraiton {
        let index = sample_table.get_sample_by_timestamp(t).expect("bug").index();
        let start_time = sample_table.get_sample(index).expect("bug").timestamp();
        let end_time = start_time + sample_table.get_sample(index).expect("bug").duration() as u64;
        assert!((start_time..end_time).contains(&t));
    }
    assert!(sample_table
        .get_sample_by_timestamp(file_duraiton + 1)
        .is_none());
}

#[test]
fn sample_table_accessor_empty_stsc_with_chunks_should_error() {
    let stbl_box = table(
        SttsBox { entries: vec![] },
        StscBox { entries: vec![] },
        StszBox::Variable {
            entry_sizes: vec![],
        },
        vec![100],
    );

    let result = SampleTableAccessor::new(&stbl_box);
    assert!(matches!(
        result,
        Err(SampleTableAccessorError::ChunksExistButNoSamples { chunk_count: 1 })
    ));
}

#[test]
fn accessor_index_zero_and_empty_table() {
    let stbl_box = table(
        SttsBox { entries: vec![] },
        StscBox { entries: vec![] },
        StszBox::Variable {
            entry_sizes: vec![],
        },
        vec![],
    );
    let sample_table = SampleTableAccessor::new(&stbl_box).expect("empty table is consistent");
    assert_eq!(sample_table.sample_count(), 0);
    assert_eq!(sample_table.chunk_count(), 0);
    assert!(sample_table.get_sample(0).is_none());
    assert!(sample_table.get_sample(1).is_none());
    assert!(sample_table.get_chunk(0).is_none());
    assert!(sample_table.get_sample_by_timestamp(0).is_none());
    assert!(sample_table.samples().is_empty());
    assert!(sample_table.chunks().is_empty());
    assert_eq!(sample_table.stbl_box(), &stbl_box);
}

#[test]
fn accessor_fixed_size_offsets_and_composition_offsets() {
    let mut stbl_box = table(
        SttsBox {
            entries: vec![SttsEntry {
                sample_count: 5,
                sample_delta: 3,
            }],
        },
        stsc(&[(1, 3, 1), (2, 2, 1)]),
        StszBox::Fixed {
            sample_size: 7,
            sample_count: 5,
        },
        vec![],
    );
    stbl_box.stco_or_co64_box = Either::B(Co64Box {
        chunk_offsets: vec![1000, 5000],
    });
    stbl_box.ctts_box = Some(CttsBox {
        version: 1,
        entries: vec![
            CttsEntry {
                sample_count: 2,
                sample_offset: 6,
            },
            CttsEntry {
                sample_count: 0,
                sample_offset: 99,
            },
            CttsEntry {
                sample_count: 3,
                sample_offset: -3,
            },
        ],
    });
    let sample_table = SampleTableAccessor::new(&stbl_box).expect("consistent");
    let offsets = [1000, 1007, 1014, 5000, 5007];
    let composition = [6, 6, -3, -3, -3];
    for (k, sample) in sample_table.samples().iter().enumerate() {
        assert_eq!(sample.index(), k as u32 + 1);
        assert_eq!(sample.data_offset(), offsets[k]);
        assert_eq!(sample.data_size(), 7);
        assert_eq!(sample.timestamp(), 3 * k as u64);
        assert_eq!(sample.composition_time_offset(), Some(composition[k]));
        assert!(sample.is_sync_sample());
        assert_eq!(sample.sync_sample().map(|s| s.index()), Some(k as u32 + 1));
    }
    let chunks = sample_table.chunks();
    assert_eq!(chunks.len(), 2);
    let second: Vec<u32> = chunks[1].samples().iter().map(|s| s.index()).collect();
    assert_eq!(second, vec![4, 5]);
    assert_eq!(chunks[1].sample_entry_index(), 0);
}

#[test]
fn accessor_empty_chunks_are_skipped_by_sample_lookup() {
    // Chunk 2 holds no sample; sample 3 belongs to chunk 3.
    let stbl_box = table(
        SttsBox {
            entries: vec![SttsEntry {
                sample_count: 3,
                sample_delta: 1,
            }],
        },
        stsc(&[(1, 2, 1), (2, 0, 1), (3, 1, 1)]),
        StszBox::Variable {
            entry_sizes: vec![4, 4, 4],
        },
        vec![10, 20, 30],
    );
    let sample_table = SampleTableAccessor::new(&stbl_box).expect("consistent");
    let chunk = sample_table.get_sample(3).expect("exists").chunk();
    assert_eq!(chunk.index(), 3);
    assert_eq!(sample_table.get_sample(3).expect("exists").data_offset(), 30);
    assert_eq!(sample_table.get_chunk(2).expect("exists").samples().len(), 0);
}

#[test]
fn accessor_sync_sample_before_first_sync_is_none() {
    let mut stbl_box = table(
        SttsBox {
            entries: vec![SttsEntry {
                sample_count: 4,
                sample_delta: 1,
            }],
        },
        stsc(&[(1, 4, 1)]),
        StszBox::Variable {
            entry_sizes: vec![1, 1, 1, 1],
        },
        vec![0],
    );
    stbl_box.stss_box = Some(StssBox {
        sample_numbers: vec![3],
    });
    let sample_table = SampleTableAccessor::new(&stbl_box).expect("consistent");
    assert!(sample_table.get_sample(2).expect("exists").sync_sample().is_none());
    assert_eq!(
        sample_table
            .get_sample(4)
            .expect("exists")
            .sync_sample()
            .map(|s| s.index()),
        Some(3)
    );
    assert_eq!(
        sample_table.get_sample(1).expect("exists").composition_time_offset(),
        None
    );
}

#[test]
fn accessor_timestamp_lookup_can_stop_at_zero_duration_sample() {
    let stbl_box = table(
        SttsBox::from_sample_deltas(&[5, 0, 3]).expect("small"),
        stsc(&[(1, 3, 1)]),
        StszBox::Variable {
            entry_sizes: vec![1, 1, 1],
        },
        vec![0],
    );
    let sample_table = SampleTableAccessor::new(&stbl_box).expect("consistent");
    // The first probe is sample 2, which starts at 5 (with zero duration).
    assert_eq!(
        sample_table.get_sample_by_timestamp(5).map(|s| s.index()),
        Some(2)
    );
    assert_eq!(
        sample_table.get_sample_by_timestamp(7).map(|s| s.index()),
        Some(3)
    );
    assert_eq!(
        sample_table.get_sample_by_timestamp(4).map(|s| s.index()),
        Some(1)
    );
    assert!(sample_table.get_sample_by_timestamp(8).is_none());
}

#[test]
fn accessor_timestamp_lookup_at_trailing_zero_duration_sample() {
    let stbl_box = table(
        SttsBox::from_sample_deltas(&[5, 0]).expect("small"),
        stsc(&[(1, 2, 1)]),
        StszBox::Variable {
            entry_sizes: vec![1, 1],
        },
        vec![0],
    );
    let sample_table = SampleTableAccessor::new(&stbl_box).expect("consistent");
    assert_eq!(
        sample_table.get_sample_by_timestamp(5).map(|s| s.index()),
        Some(2)
    );
    assert!(sample_table.get_sample_by_timestamp(6).is_none());
}

#[test]
fn accessor_errors_in_check_order() {
    // stts sample count overflow
    let b = table(
        SttsBox {
            entries: vec![
                SttsEntry {
                    sample_count: u32::MAX,
                    sample_delta: 1,
                },
                SttsEntry {
                    sample_count: 1,
                    sample_delta: 1,
                },
            ],
        },
        stsc(&[]),
        StszBox::Variable {
            entry_sizes: vec![],
        },
        vec![],
    );
    match SampleTableAccessor::new(&b) {
        Err(SampleTableAccessorError::SampleCountOverflow {
            box_type,
            accumulated_sample_count,
            entry_sample_count,
        }) => {
            assert_eq!(box_type, BoxType::Normal(*b"stts"));
            assert_eq!(accumulated_sample_count, u32::MAX);
            assert_eq!(entry_sample_count, 1);
        }
        other => panic!("unexpected {other:?}"),
    }

    // stsz disagrees with stts
    let b = table(
        SttsBox::from_sample_deltas(&[1, 1]).expect("small"),
        stsc(&[(1, 2, 1)]),
        StszBox::Fixed {
            sample_size: 1,
            sample_count: 3,
        },
        vec![0],
    );
    match SampleTableAccessor::new(&b) {
        Err(SampleTableAccessorError::InconsistentSampleCount {
            stts_sample_count,
            other_box_type,
            other_sample_count,
        }) => {
            assert_eq!(stts_sample_count, 2);
            assert_eq!(other_box_type, BoxType::Normal(*b"stsz"));
            assert_eq!(other_sample_count, 3);
        }
        other => panic!("unexpected {other:?}"),
    }

    // ctts disagrees with stts
    let mut b = table(
        SttsBox::from_sample_deltas(&[1, 1]).expect("small"),
        stsc(&[(1, 2, 1)]),
        StszBox::Variable {
            entry_sizes: vec![1, 1],
        },
        vec![0],
    );
    b.ctts_box = Some(CttsBox {
        version: 0,
        entries: vec![CttsEntry {
            sample_count: 1,
            sample_offset: 0,
        }],
    });
    match SampleTableAccessor::new(&b) {
        Err(SampleTableAccessorError::InconsistentSampleCount {
            other_box_type,
            other_sample_count,
            ..
        }) => {
            assert_eq!(other_box_type, BoxType::Normal(*b"ctts"));
            assert_eq!(other_sample_count, 1);
        }
        other => panic!("unexpected {other:?}"),
    }

    // stsc problems
    let base = |entries: &[(u32, u32, u32)], chunks: usize| {
        table(
            SttsBox::from_sample_deltas(&[1, 1]).expect("small"),
            stsc(entries),
            StszBox::Variable {
                entry_sizes: vec![1, 1],
            },
            vec![0; chunks],
        )
    };
    let b = base(&[(2, 2, 1)], 2);
    assert!(matches!(
        SampleTableAccessor::new(&b),
        Err(SampleTableAccessorError::FirstChunkIndexIsNotOne {
            actual_chunk_index: 2
        })
    ));
    let b = base(&[(1, 1, 1), (2, 1, 2)], 2);
    assert!(matches!(
        SampleTableAccessor::new(&b),
        Err(SampleTableAccessorError::MissingSampleEntry {
            stsc_entry_index: 1,
            sample_description_index: 2,
            sample_entry_count: 1
        })
    ));
    let b = base(&[(1, 1, 1), (1, 1, 1)], 2);
    assert!(matches!(
        SampleTableAccessor::new(&b),
        Err(SampleTableAccessorError::ChunkIndicesNotMonotonicallyIncreasing)
    ));
    let b = base(&[(1, 1, 1), (3, 1, 1)], 2);
    assert!(matches!(
        SampleTableAccessor::new(&b),
        Err(SampleTableAccessorError::LastChunkIndexIsTooLarge {
            max_chunk_index: 2,
            last_chunk_index: 3
        })
    ));
    let b = base(&[(1, 3, 1)], 2);
    assert!(matches!(
        SampleTableAccessor::new(&b),
        Err(SampleTableAccessorError::InconsistentSampleCount {
            stts_sample_count: 2,
            other_sample_count: 6,
            ..
        })
    ));
}

#[test]
fn accessor_data_offset_overflow() {
    let mut b = table(
        SttsBox::from_sample_deltas(&[1, 1, 1]).expect("small"),
        stsc(&[(1, 3, 1)]),
        StszBox::Variable {
            entry_sizes: vec![1, 10, 10],
        },
        vec![],
    );
    b.stco_or_co64_box = Either::B(Co64Box {
        chunk_offsets: vec![u64::MAX - 5],
    });
    match SampleTableAccessor::new(&b) {
        Err(SampleTableAccessorError::SampleDataOffsetOverflow {
            sample_index,
            accumulated_offset,
            sample_data_size,
        }) => {
            assert_eq!(sample_index, 2);
            assert_eq!(accumulated_offset, u64::MAX - 4);
            assert_eq!(sample_data_size, 10);
        }
        other => panic!("unexpected {other:?}"),
    }

    let mut b = table(
        SttsBox::from_sample_deltas(&[1, 1, 1]).expect("small"),
        stsc(&[(1, 3, 1)]),
        StszBox::Fixed {
            sample_size: 4,
            sample_count: 3,
        },
        vec![],
    );
    b.stco_or_co64_box = Either::B(Co64Box {
        chunk_offsets: vec![u64::MAX - 5],
    });
    match SampleTableAccessor::new(&b) {
        Err(SampleTableAccessorError::SampleDataOffsetOverflow {
            sample_index,
            accumulated_offset,
            sample_data_size,
        }) => {
            assert_eq!(sample_index, 2);
            assert_eq!(accumulated_offset, u64::MAX - 1);
            assert_eq!(sample_data_size, 4);
        }
        other => panic!("unexpected {other:?}"),
    }
}

#[test]
fn accessor_fixed_stsz_same_as_variable() {
    let stts = || SttsBox::from_sample_deltas(&[1, 1, 1, 1, 1]).expect("small");
    let fixed = table(
        stts(),
        stsc(&[(1, 2, 1), (3, 1, 1)]),
        StszBox::Fixed {
            sample_size: 7,
            sample_count: 5,
        },
        vec![10, 100, 1000],
    );
    let variable = table(
        stts(),
        stsc(&[(1, 2, 1), (3, 1, 1)]),
        StszBox::Variable { entry_sizes: vec![7; 5] },
        vec![10, 100, 1000],
    );
    let a = SampleTableAccessor::new(&fixed).expect("consistent");
    let b = SampleTableAccessor::new(&variable).expect("consistent");
    for i in 1..=5 {
        let x = a.get_sample(i).expect("exists");
        let y = b.get_sample(i).expect("exists");
        assert_eq!(x.data_size(), y.data_size());
        assert_eq!(x.data_offset(), y.data_offset());
    }
    assert_eq!(a.get_sample(2).expect("exists").data_offset(), 17);
}

#[test]
fn accessor_fixed_stsz_same_error_as_variable() {
    let make = |stsz_box| {
        table(
            SttsBox::from_sample_deltas(&[1, 1, 1, 1, 1]).expect("small"),
            stsc(&[(1, 5, 1)]),
            stsz_box,
            vec![0],
        )
    };
    let fixed = make(StszBox::Fixed {
        sample_size: 3,
        sample_count: 4,
    });
    let variable = make(StszBox::Variable {
        entry_sizes: vec![3; 4],
    });
    let e1 = SampleTableAccessor::new(&fixed).unwrap_err();
    let e2 = SampleTableAccessor::new(&variable).unwrap_err();
    assert_eq!(format!("{:?}", e1), format!("{:?}", e2));
    assert!(matches!(
        e1,
        SampleTableAccessorError::InconsistentSampleCount { other_sample_count: 4, .. }
    ));
}
