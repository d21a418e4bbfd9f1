use rinha_backend_2026_luckstai_rust::index::{encode_index, IndexLoadError, QuantizedIndex};
use rinha_backend_2026_luckstai_rust::ivf::{
    allocate_partition_nlists, build_ivf_from_flat, check_build_config, partition_key, IvfBuildConfig, IvfBuildError,
    IvfIndex, IvfLoadError, NlistAllocationError,
};
use rinha_backend_2026_luckstai_rust::layout::PackedRecord;
use rinha_backend_2026_luckstai_rust::vectorize::{DIMENSIONS, SENTINEL_MISSING};

#[test]
fn partition_key_uses_expected_bits() {
    let mut vector = [0_i16; DIMENSIONS];
    vector[5] = SENTINEL_MISSING;
    vector[9] = 10_000;
    vector[10] = 0;
    vector[11] = 10_000;

    assert_eq!(partition_key(&vector, 1), 0b0001);
    assert_eq!(partition_key(&vector, 2), 0b0011);
    assert_eq!(partition_key(&vector, 3), 0b0011);
    assert_eq!(partition_key(&vector, 4), 0b1011);
}

#[test]
fn nlist_allocation_preserves_total_and_non_empty_partitions() {
    let allocation = allocate_partition_nlists(&[100, 200, 0, 700], 16).unwrap();

    assert_eq!(allocation.iter().sum::<usize>(), 16);
    assert_eq!(allocation[2], 0);
    assert!(allocation[0] >= 1);
    assert!(allocation[1] >= 1);
    assert!(allocation[3] >= 1);
    assert!(allocation[3] > allocation[0]);
}

#[test]
fn nlist_allocation_exact_shares() {
    // one list each, then 13 shared: 100*13/1000 = 1.3, 200*13/1000 = 2.6, 700*13/1000 = 9.1;
    // 12 handed out by floor, the last one to the largest remainder (0.6)
    let allocation = allocate_partition_nlists(&[100, 200, 0, 700], 16).unwrap();
    assert_eq!(allocation, vec![2, 4, 0, 10]);
}

#[test]
fn nlist_allocation_one_list_per_non_empty_partition() {
    let allocation = allocate_partition_nlists(&[5, 0, 9], 2).unwrap();
    assert_eq!(allocation, vec![1, 0, 1]);
}

#[test]
fn nlist_allocation_refuses_empty_partitions() {
    assert_eq!(
        allocate_partition_nlists(&[0, 0, 0], 4),
        Err(NlistAllocationError::EmptyPartitions)
    );
}

#[test]
fn nlist_allocation_refuses_too_few_lists() {
    assert_eq!(
        allocate_partition_nlists(&[3, 0, 4], 1),
        Err(NlistAllocationError::TooFewLists { nlist: 1, non_empty: 2 })
    );
}

#[test]
fn nlist_allocation_larger_partition_never_gets_fewer_lists() {
    let sizes = [17, 3, 250, 41, 41, 0, 9, 128];
    let allocation = allocate_partition_nlists(&sizes, 37).unwrap();
    assert_eq!(allocation.iter().sum::<usize>(), 37);
    for a in 0..sizes.len() {
        for b in 0..sizes.len() {
            if sizes[a] > sizes[b] {
                assert!(allocation[a] >= allocation[b]);
            }
        }
    }
}

fn record(first: i16, label: u8) -> PackedRecord {
    let mut vector = [0_i16; DIMENSIONS];
    vector[0] = first;
    PackedRecord { vector, label, _padding: 0 }
}

fn sample_records() -> Vec<PackedRecord> {
    vec![
        record(0, 1),
        record(100, 0),
        record(200, 1),
        record(300, 1),
        record(400, 0),
        record(500, 1),
        record(600, 1),
    ]
}

fn query(first: i16) -> [i16; DIMENSIONS] {
    let mut vector = [0_i16; DIMENSIONS];
    vector[0] = first;
    vector
}

fn config(nlist: usize, partition_bits: usize) -> IvfBuildConfig {
    IvfBuildConfig { nlist, sample_size: 64, iterations: 3, partition_bits }
}

#[test]
fn built_index_loads_and_finds_the_nearest_five() {
    let flat = encode_index(&sample_records());
    let bytes = build_ivf_from_flat(&flat, &config(2, 0)).unwrap();
    assert_eq!(&bytes[0..8], b"R26IVF01");
    let index = IvfIndex::load(&bytes).unwrap();
    assert_eq!(index.len(), 7);
    // nearest to 260: 300 (1), 200 (1), 400 (0), 100 (0), 500 (1)
    assert_eq!(index.fraud_count_top5(&query(260), 2), 3);
    assert_eq!(index.fraud_count_top5(&query(260), 100), 3);
}

#[test]
fn built_index_with_one_list_holds_every_record() {
    let flat = encode_index(&sample_records());
    let bytes = build_ivf_from_flat(&flat, &config(1, 0)).unwrap();
    // header 20, one centroid 28, two offsets 8, seven records 210
    assert_eq!(bytes.len(), 20 + 28 + 8 + 210);
    let index = IvfIndex::load(&bytes).unwrap();
    assert_eq!(index.fraud_count_top5(&query(560), 1), 4);
    // nprobe 0 probes one list
    assert_eq!(index.fraud_count_top5(&query(40), 0), 3);
}

#[test]
fn built_partitioned_index_loads() {
    let flat = encode_index(&sample_records());
    let bytes = build_ivf_from_flat(&flat, &config(2, 1)).unwrap();
    assert_eq!(&bytes[0..8], b"R26IVF02");
    let index = IvfIndex::load(&bytes).unwrap();
    assert_eq!(index.len(), 7);
    assert_eq!(index.fraud_count_top5(&query(260), 2), 3);
}

#[test]
fn partitioned_query_in_an_empty_partition_searches_every_list() {
    let flat = encode_index(&sample_records());
    let bytes = build_ivf_from_flat(&flat, &config(2, 1)).unwrap();
    let index = IvfIndex::load(&bytes).unwrap();
    let mut q = query(260);
    q[5] = SENTINEL_MISSING;
    // the query's partition holds no record, so the whole index is searched; the
    // sentinel moves every record equally far
    assert_eq!(index.fraud_count_top5(&q, 2), 3);
}

#[test]
fn adaptive_and_gated_searches_agree_when_every_list_is_probed() {
    let flat = encode_index(&sample_records());
    let bytes = build_ivf_from_flat(&flat, &config(2, 0)).unwrap();
    let index = IvfIndex::load(&bytes).unwrap();
    let never_wide = |_second: i64, _first: i64| false;
    assert_eq!(index.fraud_count_top5_adaptive(&query(260), 1, 2, &never_wide), 3);
    assert_eq!(index.fraud_count_top5_pure_gate(&query(260), 2, &never_wide), 3);
    let ratio = 1.02_f64;
    let by_ratio = |second: i64, first: i64| second as f64 / first as f64 >= ratio;
    let adaptive = index.fraud_count_top5_adaptive(&query(260), 1, 2, &by_ratio);
    assert!(adaptive <= 5);
}

#[test]
fn pure_gate_answers_from_a_pure_list() {
    let records = vec![
        record(0, 0),
        record(10, 0),
        record(20, 0),
        record(5000, 1),
        record(5010, 1),
        record(5020, 1),
    ];
    let flat = encode_index(&records);
    let bytes = build_ivf_from_flat(&flat, &config(2, 0)).unwrap();
    let index = IvfIndex::load(&bytes).unwrap();
    let always_wide = |_second: i64, _first: i64| true;
    assert_eq!(index.fraud_count_top5_pure_gate(&query(5005), 2, &always_wide), 5);
    assert_eq!(index.fraud_count_top5_pure_gate(&query(5), 2, &always_wide), 0);
    // scored in full: three legit records and two frauds lie nearest to 5
    assert_eq!(index.fraud_count_top5(&query(5), 2), 2);
}

#[test]
fn build_refuses_bad_configurations() {
    let flat = encode_index(&sample_records());
    assert_eq!(build_ivf_from_flat(&flat, &config(0, 0)), Err(IvfBuildError::ZeroNlist));
    let no_rounds = IvfBuildConfig { nlist: 2, sample_size: 8, iterations: 0, partition_bits: 0 };
    assert_eq!(build_ivf_from_flat(&flat, &no_rounds), Err(IvfBuildError::ZeroIterations));
    assert_eq!(
        build_ivf_from_flat(&flat, &config(2, 5)),
        Err(IvfBuildError::PartitionBitsOutOfRange)
    );
}

#[test]
fn build_refuses_bad_flat_indexes() {
    assert_eq!(
        build_ivf_from_flat(&[1, 2, 3], &config(2, 0)),
        Err(IvfBuildError::FlatIndex(IndexLoadError::TooSmall))
    );
    let empty = encode_index(&[]);
    assert_eq!(build_ivf_from_flat(&empty, &config(2, 0)), Err(IvfBuildError::EmptyFlatIndex));
}

#[test]
fn build_refuses_fewer_lists_than_partitions() {
    let mut records = sample_records();
    records[0].vector[5] = SENTINEL_MISSING;
    let flat = encode_index(&records);
    assert_eq!(
        build_ivf_from_flat(&flat, &config(1, 1)),
        Err(IvfBuildError::Allocation(NlistAllocationError::TooFewLists { nlist: 1, non_empty: 2 }))
    );
}

fn push_u32(out: &mut Vec<u8>, value: u32) {
    out.extend_from_slice(&value.to_le_bytes());
}

/// A version 1 file of one list holding the given labels.
fn v1_file(labels: &[u8], offsets: &[u32]) -> Vec<u8> {
    let mut out = b"R26IVF01".to_vec();
    push_u32(&mut out, 1);
    push_u32(&mut out, labels.len() as u32);
    push_u32(&mut out, (offsets.len() - 1) as u32);
    for _ in 1..offsets.len() {
        out.extend_from_slice(&[0u8; 28]);
    }
    for offset in offsets {
        push_u32(&mut out, *offset);
    }
    for label in labels {
        out.extend_from_slice(&[0u8; 28]);
        out.push(*label);
        out.push(0);
    }
    out
}

/// A version 2 file with one partition bit, two partitions and one list.
fn v2_file(bits: u32, partitions: &[[u32; 4]]) -> Vec<u8> {
    let mut out = b"R26IVF02".to_vec();
    push_u32(&mut out, 1);
    push_u32(&mut out, 1);
    push_u32(&mut out, 1);
    push_u32(&mut out, bits);
    push_u32(&mut out, partitions.len() as u32);
    for entry in partitions {
        for word in entry {
            push_u32(&mut out, *word);
        }
    }
    out.extend_from_slice(&[0u8; 28]);
    push_u32(&mut out, 0);
    push_u32(&mut out, 1);
    out.extend_from_slice(&[0u8; 28]);
    out.push(1);
    out.push(0);
    out
}

#[test]
fn ivf_load_accepts_hand_written_files() {
    let index = IvfIndex::load(&v1_file(&[0, 1, 1], &[0, 3])).unwrap();
    assert_eq!(index.len(), 3);
    assert_eq!(index.fraud_count_top5(&query(0), 1), 2);
    let partitioned = IvfIndex::load(&v2_file(1, &[[0, 1, 0, 1], [0, 0, 0, 0]])).unwrap();
    assert_eq!(partitioned.len(), 1);
    assert_eq!(partitioned.fraud_count_top5(&query(0), 1), 1);
}

#[test]
fn ivf_load_reports_each_error() {
    assert_eq!(IvfIndex::load(&[0u8; 10]).err(), Some(IvfLoadError::TooSmall));
    let mut bad_magic = v1_file(&[0], &[0, 1]);
    bad_magic[0] = b'X';
    assert_eq!(IvfIndex::load(&bad_magic).err(), Some(IvfLoadError::InvalidMagic));
    let short_v2 = v2_file(1, &[])[..24].to_vec();
    assert_eq!(IvfIndex::load(&short_v2).err(), Some(IvfLoadError::TooSmall));
    let mut version = v1_file(&[0], &[0, 1]);
    version[8] = 7;
    assert_eq!(IvfIndex::load(&version).err(), Some(IvfLoadError::UnsupportedVersion(7)));
    assert_eq!(
        IvfIndex::load(&v2_file(0, &[[0, 1, 0, 1]])).err(),
        Some(IvfLoadError::InvalidPartitionMetadata)
    );
    assert_eq!(
        IvfIndex::load(&v2_file(1, &[[0, 1, 0, 1]])).err(),
        Some(IvfLoadError::InvalidPartitionMetadata)
    );
    let truncated = v1_file(&[0, 1], &[0, 2]);
    assert_eq!(
        IvfIndex::load(&truncated[..truncated.len() - 1]).err(),
        Some(IvfLoadError::CorruptLayout)
    );
    let truncated_v2 = v2_file(1, &[[0, 1, 0, 1], [0, 0, 0, 0]]);
    assert_eq!(
        IvfIndex::load(&truncated_v2[..truncated_v2.len() - 1]).err(),
        Some(IvfLoadError::CorruptPartitionedLayout)
    );
}

#[test]
fn ivf_load_accepts_any_lists_and_labels() {
    // no list at all: nothing to search
    let empty = IvfIndex::load(&v1_file(&[], &[0])).unwrap();
    assert_eq!(empty.len(), 0);
    assert_eq!(empty.fraud_count_top5(&query(0), 4), 0);
    // a list that reaches past the records holds none
    let past = IvfIndex::load(&v1_file(&[0, 1], &[0, 3])).unwrap();
    assert_eq!(past.len(), 2);
    assert_eq!(past.fraud_count_top5(&query(0), 1), 0);
    // a list whose offsets decrease holds none
    let inverted = IvfIndex::load(&v1_file(&[1, 1], &[2, 1])).unwrap();
    assert_eq!(inverted.fraud_count_top5(&query(0), 1), 0);
    // labels count by their value
    let heavy = IvfIndex::load(&v1_file(&[0, 2], &[0, 2])).unwrap();
    assert_eq!(heavy.fraud_count_top5(&query(0), 1), 2);
    // a partition whose centroids pass the last list is cut at the last list
    let wide = IvfIndex::load(&v2_file(1, &[[0, 2, 0, 1], [0, 0, 0, 0]])).unwrap();
    assert_eq!(wide.fraud_count_top5(&query(0), 2), 1);
    // a partition whose centroids all lie past the last list searches no list
    let beyond = IvfIndex::load(&v2_file(1, &[[5, 1, 0, 1], [0, 0, 0, 0]])).unwrap();
    assert_eq!(beyond.fraud_count_top5(&query(0), 2), 0);
}

fn spread_records() -> Vec<PackedRecord> {
    (0..40)
        .map(|i: i16| record(i * 100, if (i * 7) % 5 < 2 { 1 } else { 0 }))
        .collect()
}

#[test]
fn adaptive_search_is_the_plain_search_with_the_lists_it_keeps() {
    let flat = encode_index(&spread_records());
    let bytes = build_ivf_from_flat(&flat, &config(8, 0)).unwrap();
    let index = IvfIndex::load(&bytes).unwrap();
    let always_wide = |_second: i64, _first: i64| true;
    let never_wide = |_second: i64, _first: i64| false;
    for first in [0_i16, 150, 990, 2010, 3333, 3900] {
        let q = query(first);
        assert_eq!(
            index.fraud_count_top5_adaptive(&q, 2, 6, &always_wide),
            index.fraud_count_top5(&q, 2)
        );
        assert_eq!(
            index.fraud_count_top5_adaptive(&q, 2, 6, &never_wide),
            index.fraud_count_top5(&q, 6)
        );
        // a low count above the high one keeps the high one
        assert_eq!(
            index.fraud_count_top5_adaptive(&q, 7, 3, &always_wide),
            index.fraud_count_top5(&q, 3)
        );
        assert_eq!(
            index.fraud_count_top5_pure_gate(&q, 4, &never_wide),
            index.fraud_count_top5(&q, 4)
        );
    }
}

#[test]
fn build_configurations_are_checked_before_any_file() {
    assert_eq!(check_build_config(&config(0, 0)), Err(IvfBuildError::ZeroNlist));
    let no_rounds = IvfBuildConfig { nlist: 2, sample_size: 8, iterations: 0, partition_bits: 0 };
    assert_eq!(check_build_config(&no_rounds), Err(IvfBuildError::ZeroIterations));
    assert_eq!(check_build_config(&config(2, 5)), Err(IvfBuildError::PartitionBitsOutOfRange));
    assert_eq!(check_build_config(&config(2, 4)), Ok(()));
}

fn word(bytes: &[u8], at: usize) -> u32 {
    u32::from_le_bytes([bytes[at], bytes[at + 1], bytes[at + 2], bytes[at + 3]])
}

#[test]
fn partitioned_build_gives_each_partition_its_lists_and_records() {
    let mut records = sample_records();
    records[1].vector[5] = SENTINEL_MISSING;
    records[4].vector[5] = SENTINEL_MISSING;
    let flat = encode_index(&records);
    let bytes = build_ivf_from_flat(&flat, &config(3, 1)).unwrap();
    let allocation = allocate_partition_nlists(&[5, 2], 3).unwrap();
    assert_eq!(allocation, vec![2, 1]);
    assert_eq!(word(&bytes, 24), 2);
    let mut next_list = 0;
    let mut next_record = 0;
    for (p, size) in [(0usize, 5u32), (1, 2)] {
        let entry = 28 + 16 * p;
        assert_eq!(word(&bytes, entry), next_list);
        assert_eq!(word(&bytes, entry + 4), allocation[p] as u32);
        assert_eq!(word(&bytes, entry + 8), next_record);
        assert_eq!(word(&bytes, entry + 12), size);
        next_list += allocation[p] as u32;
        next_record += size;
    }
    // the records of partition 1 are the two with a missing last transaction
    let records_at = 28 + 2 * 16 + 3 * 28 + 4 * 4;
    for j in 5..7 {
        let at = records_at + 30 * j + 2 * 5;
        assert_eq!(i16::from_le_bytes([bytes[at], bytes[at + 1]]), SENTINEL_MISSING);
    }
    let index = IvfIndex::load(&bytes).unwrap();
    assert_eq!(index.len(), 7);
}

#[test]
fn probing_every_list_answers_as_the_flat_search() {
    // distances from the queries below to the references are all distinct,
    // so the fifth nearest stands apart from the sixth
    let records = vec![
        record(0, 1),
        record(110, 0),
        record(230, 1),
        record(360, 1),
        record(500, 0),
        record(650, 1),
        record(810, 0),
        record(980, 1),
        record(1160, 0),
    ];
    let flat_bytes = encode_index(&records);
    let flat = QuantizedIndex::load(&flat_bytes).unwrap();
    let bytes = build_ivf_from_flat(&flat_bytes, &config(3, 0)).unwrap();
    let index = IvfIndex::load(&bytes).unwrap();
    for first in [7_i16, 333, 611, 1001] {
        assert_eq!(index.fraud_count_top5(&query(first), 3), flat.fraud_count_top5_flat(&query(first)));
        assert_eq!(index.fraud_count_top5(&query(first), 50), flat.fraud_count_top5_flat(&query(first)));
    }
    // nearest to 611: 650 (1), 500 (0), 810 (0), 360 (1), 980 (1)
    assert_eq!(index.fraud_count_top5(&query(611), 3), 3);
}

#[test]
fn partitioned_build_succeeds_wherever_the_lists_can_be_shared() {
    let mut records = sample_records();
    records[0].vector[5] = SENTINEL_MISSING;
    records[3].vector[5] = SENTINEL_MISSING;
    let flat = encode_index(&records);
    // two non-empty partitions: one list is too few, two or more always build
    assert!(matches!(
        build_ivf_from_flat(&flat, &config(1, 1)),
        Err(IvfBuildError::Allocation(NlistAllocationError::TooFewLists { .. }))
    ));
    for nlist in [2, 3, 5, 7, 11] {
        let bytes = build_ivf_from_flat(&flat, &config(nlist, 1)).unwrap();
        let index = IvfIndex::load(&bytes).unwrap();
        assert_eq!(index.len(), 7);
        // the header holds the lists asked for
        assert_eq!(u32::from_le_bytes([bytes[16], bytes[17], bytes[18], bytes[19]]), nlist as u32);
    }
}
