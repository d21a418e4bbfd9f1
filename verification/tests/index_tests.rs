use rinha_backend_2026_luckstai_rust::index::{
    encode_index, encode_index_header, encode_record, index_path_status, squared_distance_pruned,
    validate_index_path, IndexLoadError, IndexPathError, QuantizedIndex,
};
use rinha_backend_2026_luckstai_rust::layout::PackedRecord;
use rinha_backend_2026_luckstai_rust::vectorize::DIMENSIONS;

fn record(first: i16, label: u8) -> PackedRecord {
    let mut vector = [0_i16; DIMENSIONS];
    vector[0] = first;
    PackedRecord { vector, label, _padding: 0 }
}

fn sample_records() -> Vec<PackedRecord> {
    vec![
        record(0, 1),
        record(100, 0),
        record(200, 1),
        record(300, 1),
        record(400, 0),
        record(500, 1),
        record(600, 1),
    ]
}

fn query(first: i16) -> [i16; DIMENSIONS] {
    let mut vector = [0_i16; DIMENSIONS];
    vector[0] = first;
    vector
}

#[test]
fn flat_index_roundtrip_keeps_every_record() {
    let bytes = encode_index(&sample_records());
    assert_eq!(bytes.len(), 16 + 7 * 30);
    let index = QuantizedIndex::load(&bytes).unwrap();
    assert_eq!(index.len(), 7);
    let records = index.records_for_build();
    assert_eq!(records.len(), 7);
    for (read, written) in records.iter().zip(sample_records().iter()) {
        assert_eq!(read, written);
    }
}

#[test]
fn encoded_index_is_header_then_records() {
    let records = sample_records();
    let mut pieces = encode_index_header(7);
    for record in &records {
        pieces.extend_from_slice(&encode_record(record));
    }
    assert_eq!(pieces, encode_index(&records));
    assert_eq!(&pieces[0..8], b"R26IDX01");
    assert_eq!(&pieces[8..12], &[1, 0, 0, 0]);
    assert_eq!(&pieces[12..16], &[7, 0, 0, 0]);
}

#[test]
fn encoded_record_is_little_endian() {
    let mut vector = [0_i16; DIMENSIONS];
    vector[0] = -2;
    vector[13] = 0x0102;
    let bytes = encode_record(&PackedRecord { vector, label: 1, _padding: 0 });
    assert_eq!(bytes.len(), 30);
    assert_eq!(&bytes[0..2], &[0xFE, 0xFF]);
    assert_eq!(&bytes[26..28], &[0x02, 0x01]);
    assert_eq!(bytes[28], 1);
    assert_eq!(bytes[29], 0);
}

#[test]
fn flat_and_pruned_searches_count_frauds_among_the_nearest_five() {
    let index = QuantizedIndex::load(&encode_index(&sample_records())).unwrap();
    // nearest to 260: 300 (1), 200 (1), 400 (0), 100 (0), 500 (1)
    assert_eq!(index.fraud_count_top5_flat(&query(260)), 3);
    assert_eq!(index.fraud_count_top5_pruned(&query(260)), 3);
    // nearest to 560: 600 (1), 500 (1), 400 (0), 300 (1), 200 (1)
    assert_eq!(index.fraud_count_top5_flat(&query(560)), 4);
    assert_eq!(index.fraud_count_top5_pruned(&query(560)), 4);
}

#[test]
fn search_over_fewer_than_five_records_counts_them_all() {
    let index = QuantizedIndex::load(&encode_index(&[record(0, 1), record(9, 1)])).unwrap();
    assert_eq!(index.fraud_count_top5_flat(&query(3)), 2);
    assert_eq!(index.fraud_count_top5_pruned(&query(3)), 2);
    let empty = QuantizedIndex::load(&encode_index(&[])).unwrap();
    assert_eq!(empty.len(), 0);
    assert_eq!(empty.fraud_count_top5_flat(&query(3)), 0);
}

#[test]
fn ties_go_to_the_record_seen_first() {
    let records = vec![
        record(10, 1),
        record(-10, 0),
        record(10, 0),
        record(-10, 1),
        record(10, 1),
        record(-10, 0),
    ];
    let index = QuantizedIndex::load(&encode_index(&records)).unwrap();
    // all six lie at distance 100; the first five count
    assert_eq!(index.fraud_count_top5_flat(&query(0)), 3);
    assert_eq!(index.fraud_count_top5_pruned(&query(0)), 3);
}

#[test]
fn pruned_distance_stops_at_the_limit() {
    let zero = [0_i16; DIMENSIONS];
    let mut other = [0_i16; DIMENSIONS];
    other[0] = 3;
    other[5] = 4;
    assert_eq!(squared_distance_pruned(&zero, &other, 1_000), 25);
    // dimension 5 comes first in the search order: 16 already reaches 10
    assert_eq!(squared_distance_pruned(&zero, &other, 10), 16);
    assert_eq!(squared_distance_pruned(&zero, &other, 25), 25);
    let mut far = [0_i16; DIMENSIONS];
    let mut near = [0_i16; DIMENSIONS];
    far[3] = i16::MAX;
    near[3] = i16::MIN;
    assert_eq!(squared_distance_pruned(&far, &near, i64::MAX), 65_535 * 65_535);
}

#[test]
fn flat_load_reports_each_error() {
    assert_eq!(QuantizedIndex::load(&[0u8; 15]).err(), Some(IndexLoadError::TooSmall));
    let mut magic = encode_index(&sample_records());
    magic[3] = b'x';
    assert_eq!(QuantizedIndex::load(&magic).err(), Some(IndexLoadError::InvalidMagic));
    let mut version = encode_index(&sample_records());
    version[8] = 2;
    assert_eq!(QuantizedIndex::load(&version).err(), Some(IndexLoadError::UnsupportedVersion(2)));
    let mut ragged = encode_index(&sample_records());
    ragged.pop();
    assert_eq!(QuantizedIndex::load(&ragged).err(), Some(IndexLoadError::CorruptRecordRegion));
    let mut count = encode_index(&[record(0, 0)]);
    count[12] = 3;
    assert_eq!(
        QuantizedIndex::load(&count).err(),
        Some(IndexLoadError::CountMismatch { header: 3, computed: 1 })
    );
}

#[test]
fn labels_count_by_their_value_as_a_byte() {
    let heavy = QuantizedIndex::load(&encode_index(&[record(0, 2), record(5, 0)])).unwrap();
    assert_eq!(heavy.len(), 2);
    assert_eq!(heavy.fraud_count_top5_flat(&query(0)), 2);
    assert_eq!(heavy.fraud_count_top5_pruned(&query(0)), 2);
    let records: Vec<PackedRecord> = (0..6).map(|i| record(i * 10, 255)).collect();
    let wrapped = QuantizedIndex::load(&encode_index(&records)).unwrap();
    // five labels of 255 sum to 1275, which is 251 as a byte
    assert_eq!(wrapped.fraud_count_top5_flat(&query(0)), 251);
    assert_eq!(wrapped.fraud_count_top5_pruned(&query(0)), 251);
}

#[test]
fn index_path_must_exist() {
    assert_eq!(validate_index_path("/"), Ok(()));
    assert_eq!(
        validate_index_path("/no/such/dir/references.idx"),
        Err(IndexPathError::NotFound)
    );
    assert_eq!(index_path_status(true), Ok(()));
    assert_eq!(index_path_status(false), Err(IndexPathError::NotFound));
}

#[test]
fn index_written_record_by_record_reads_back() {
    let records = sample_records();
    // header first with no count, the records in turn, then the header again with the count
    let mut file = encode_index_header(0);
    for record in &records {
        file.extend_from_slice(&encode_record(record));
    }
    let header = encode_index_header(records.len() as u32);
    file[..16].copy_from_slice(&header);
    assert_eq!(file, encode_index(&records));
    let index = QuantizedIndex::load(&file).unwrap();
    let read = index.records_for_build();
    assert_eq!(read.len(), records.len());
    for (got, written) in read.iter().zip(records.iter()) {
        assert_eq!(got.vector, written.vector);
        assert_eq!(got.label, written.label);
    }
}
