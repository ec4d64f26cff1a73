use olap_engine::column_writer::{ColumnWriter, ShortKeyIndexBuilder};
use olap_engine::common::OlapError;
use olap_engine::field_type::{ColumnMeta, CompressionType, EncodingType, FieldType, Value};
use olap_engine::segment::{ColumnIndexMeta, SegmentFooter, SegmentReader, SegmentWriter};

#[test]
fn column_writer_closes_a_page_at_1024_values() {
    let meta = ColumnMeta::new(0, "id", FieldType::Int64);
    let mut writer = ColumnWriter::new(meta);
    for i in 0..1023 {
        writer.add_value(Value::Int64(i)).unwrap();
    }
    assert_eq!(writer.ordinal_index().page_count(), 0);
    assert!(writer.data().is_empty());
    writer.add_value(Value::Int64(1023)).unwrap();
    assert_eq!(writer.ordinal_index().page_count(), 1);
    assert_eq!(writer.ordinal_index().entry(0), (0, 0));
    assert!(!writer.data().is_empty());
    writer.add_value(Value::Int64(1024)).unwrap();
    assert_eq!(writer.num_rows(), 1025);
    let first_page_len = writer.data().len() as u64;
    writer.close().unwrap();
    assert_eq!(writer.ordinal_index().page_count(), 2);
    assert_eq!(writer.ordinal_index().entry(1), (1024, first_page_len));
    assert_eq!(writer.zone_map().filter(&[0, 0, 0, 0, 0, 0, 0, 0], &[0, 0, 0, 0, 0, 0, 0, 5]), vec![0]);
    assert_eq!(
        writer.zone_map().filter(&[0, 0, 0, 0, 0, 0, 4, 0], &[0, 0, 0, 0, 0, 0, 4, 0]),
        vec![1]
    );
    assert!(writer.bloom_filter().may_contain(&[0, 0, 0, 0, 0, 0, 4, 0]));
    let (data, size) = writer.finalize().unwrap();
    assert_eq!(size, data.len() as u64);
}

#[test]
fn column_writer_finalize_closes_the_open_page() {
    let meta = ColumnMeta::new(0, "id", FieldType::Int64)
        .with_compression(CompressionType::Uncompressed)
        .with_encoding(EncodingType::Plain);
    let mut writer = ColumnWriter::new(meta);
    writer.add_value(Value::Int64(42)).unwrap();
    let (data, size) = writer.finalize().unwrap();
    assert_eq!(size, 25);
    let expected: Vec<u8> = vec![
        1, 0, 0, 0, 0, 0, 0, 0, 8, 0, 0, 0, 0, 42, 0, 0, 0, 0, 0, 0, 0, 0xe6, 0xeb, 0x6b, 0xec,
    ];
    assert_eq!(data, expected);
    let empty = ColumnWriter::new(ColumnMeta::new(0, "id", FieldType::Int64));
    assert_eq!(empty.finalize().unwrap(), (Vec::new(), 0));
}

#[test]
fn short_key_builder_joins_the_sort_keys_of_a_row() {
    let mut builder = ShortKeyIndexBuilder::new();
    builder.maybe_add(0, &[Value::Int32(1), Value::Bytes(b"ab".to_vec())]);
    builder.maybe_add(5, &[Value::Int32(2)]);
    let expected: Vec<u8> = vec![1, 0, 0, 0, 0, 0, 0, 0, 6, 0, 0, 0, 0, 0, 0, 1, b'a', b'b'];
    assert_eq!(builder.index.serialize(), expected);
}

#[test]
fn footer_is_read_back_from_its_bytes() {
    let footer = SegmentFooter {
        num_rows: 2000,
        num_columns: 2,
        short_key_offset: 100,
        short_key_size: 20,
        column_metas: vec![
            ColumnIndexMeta {
                ordinal_offset: 1,
                ordinal_size: 2,
                zonemap_offset: 3,
                zonemap_size: 4,
                bf_offset: 5,
                bf_size: 6,
            },
            ColumnIndexMeta {
                ordinal_offset: 7,
                ordinal_size: 8,
                zonemap_offset: 9,
                zonemap_size: 10,
                bf_offset: 11,
                bf_size: 12,
            },
        ],
    };
    let bytes = footer.serialize();
    assert_eq!(bytes.len(), 24 + 2 * 48);
    assert_eq!(&bytes[..8], &[0xd0, 7, 0, 0, 2, 0, 0, 0]);
    assert_eq!(&bytes[8..16], &[100, 0, 0, 0, 0, 0, 0, 0]);
    let back = SegmentFooter::deserialize(&bytes).unwrap();
    assert_eq!(back.num_rows, 2000);
    assert_eq!(back.num_columns, 2);
    assert_eq!(back.short_key_offset, 100);
    assert_eq!(back.short_key_size, 20);
    assert_eq!(back.column_metas, footer.column_metas);
    assert!(SegmentFooter::deserialize(&bytes[..23]).is_none());
    let cut = SegmentFooter::deserialize(&bytes[..24 + 48 + 10]).unwrap();
    assert_eq!(cut.num_columns, 2);
    assert_eq!(cut.column_metas.len(), 1);
}

#[test]
fn rows_of_the_wrong_length_are_rejected() {
    let schema = vec![
        ColumnMeta::new(0, "a", FieldType::Int64),
        ColumnMeta::new(1, "b", FieldType::Int64),
    ];
    let mut writer = SegmentWriter::new(schema);
    assert_eq!(writer.schema().len(), 2);
    assert_eq!(writer.append_row(vec![Value::Int64(1)]), Err(OlapError::SchemaMismatch));
    assert_eq!(
        writer.append_row(vec![Value::Int64(1), Value::Int64(2), Value::Int64(3)]),
        Err(OlapError::SchemaMismatch)
    );
    assert_eq!(writer.num_rows(), 0);
    writer.append_row(vec![Value::Int64(1), Value::Int64(2)]).unwrap();
    assert_eq!(writer.num_rows(), 1);
}

#[test]
fn empty_segment_has_the_stated_layout() {
    let writer = SegmentWriter::new(Vec::new());
    let bytes = writer.finalize().unwrap();
    let mut expected: Vec<u8> = Vec::new();
    expected.extend_from_slice(b"OLAPSEG\0");
    expected.extend_from_slice(&2u32.to_le_bytes());
    expected.extend_from_slice(&0u32.to_le_bytes());
    let footer: Vec<u8> = vec![
        0, 0, 0, 0, 0, 0, 0, 0, 12, 0, 0, 0, 0, 0, 0, 0, 4, 0, 0, 0, 0, 0, 0, 0,
    ];
    expected.extend_from_slice(&footer);
    expected.extend_from_slice(&[0x95, 0x73, 0x2a, 0x5e]);
    expected.extend_from_slice(&24u32.to_le_bytes());
    expected.extend_from_slice(b"OLAPSEG\0");
    assert_eq!(bytes.len(), expected.len());
    assert_eq!(&bytes[..40], &expected[..40]);
    assert_eq!(&bytes[44..], &expected[44..]);
    let reader = SegmentReader::open(bytes, Vec::new()).unwrap();
    assert_eq!(reader.num_rows(), 0);
}

#[test]
fn single_column_segment_reads_every_row_back() {
    for (encoding, compression) in [
        (EncodingType::DeltaBinary, CompressionType::Lz4),
        (EncodingType::DeltaBinary, CompressionType::Uncompressed),
        (EncodingType::Plain, CompressionType::Lz4),
        (EncodingType::Plain, CompressionType::Uncompressed),
    ] {
        let schema = || {
            vec![ColumnMeta::new(0, "id", FieldType::Int64)
                .with_encoding(encoding)
                .with_compression(compression)]
        };
        let mut writer = SegmentWriter::new(schema());
        let mut expected = Vec::new();
        for i in 0..2500i64 {
            writer.append_row(vec![Value::Int64(i * i - 1000)]).unwrap();
            expected.push(Value::Int64(i * i - 1000));
        }
        let bytes = writer.finalize().unwrap();
        let reader = SegmentReader::open(bytes, schema()).unwrap();
        assert_eq!(reader.num_rows(), 2500);
        assert_eq!(reader.read_column(0).unwrap(), expected);
    }
}

#[test]
fn pages_before_the_last_are_read_from_every_column() {
    let schema = || {
        vec![
            ColumnMeta::new(0, "a", FieldType::Int64),
            ColumnMeta::new(1, "b", FieldType::Int64),
        ]
    };
    let mut writer = SegmentWriter::new(schema());
    for i in 0..2048i64 {
        writer.append_row(vec![Value::Int64(i), Value::Int64(-i)]).unwrap();
    }
    let bytes = writer.finalize().unwrap();
    let reader = SegmentReader::open(bytes, schema()).unwrap();
    assert_eq!(reader.num_rows(), 2048);
    let first = reader.read_column(0).unwrap();
    let second = reader.read_column(1).unwrap();
    assert_eq!(&first[..1024], &(0..1024).map(Value::Int64).collect::<Vec<_>>()[..]);
    assert_eq!(&second[..1024], &(0..1024).map(|i| Value::Int64(-i)).collect::<Vec<_>>()[..]);
}

#[test]
fn opening_rejects_what_is_no_segment() {
    let schema = Vec::<ColumnMeta>::new;
    match SegmentReader::open(vec![0u8; 19], schema()) {
        Err(OlapError::SegmentIo(msg)) => assert_eq!(msg, "invalid segment magic"),
        other => panic!("unexpected outcome: {:?}", other.map(|r| r.num_rows())),
    }
    match SegmentReader::open(vec![0u8; 64], schema()) {
        Err(OlapError::SegmentIo(msg)) => assert_eq!(msg, "invalid segment magic"),
        other => panic!("unexpected outcome: {:?}", other.map(|r| r.num_rows())),
    }
    let mut long_footer = vec![0u8; 12];
    long_footer.extend_from_slice(&1000u32.to_le_bytes());
    long_footer.extend_from_slice(b"OLAPSEG\0");
    match SegmentReader::open(long_footer, schema()) {
        Err(OlapError::SegmentIo(msg)) => assert_eq!(msg, "invalid footer length"),
        other => panic!("unexpected outcome: {:?}", other.map(|r| r.num_rows())),
    }
    let mut short_footer = vec![0u8; 4];
    short_footer.extend_from_slice(&0u32.to_le_bytes());
    short_footer.extend_from_slice(&0u32.to_le_bytes());
    short_footer.extend_from_slice(b"OLAPSEG\0");
    match SegmentReader::open(short_footer, schema()) {
        Err(OlapError::SegmentIo(msg)) => assert_eq!(msg, "cannot parse footer"),
        other => panic!("unexpected outcome: {:?}", other.map(|r| r.num_rows())),
    }
}

#[test]
fn reading_rejects_columns_that_are_not_there() {
    let schema = || vec![ColumnMeta::new(0, "id", FieldType::Int64)];
    let mut writer = SegmentWriter::new(schema());
    writer.append_row(vec![Value::Int64(1)]).unwrap();
    let bytes = writer.finalize().unwrap();
    let reader = SegmentReader::open(bytes.clone(), schema()).unwrap();
    match reader.read_column(3) {
        Err(OlapError::SegmentIo(msg)) => assert_eq!(msg, "col 3 not found"),
        other => panic!("unexpected outcome: {:?}", other),
    }
    let without_schema = SegmentReader::open(bytes, Vec::new()).unwrap();
    match without_schema.read_column(0) {
        Err(OlapError::SegmentIo(msg)) => assert_eq!(msg, "schema mismatch"),
        other => panic!("unexpected outcome: {:?}", other),
    }
}

#[test]
fn corrupted_pages_are_skipped() {
    let schema = || {
        vec![ColumnMeta::new(0, "id", FieldType::Int64)
            .with_compression(CompressionType::Uncompressed)]
    };
    let mut writer = SegmentWriter::new(schema());
    for i in 0..2048i64 {
        writer.append_row(vec![Value::Int64(i)]).unwrap();
    }
    let mut bytes = writer.finalize().unwrap();
    bytes[12 + 20] ^= 1;
    let reader = SegmentReader::open(bytes, schema()).unwrap();
    let values = reader.read_column(0).unwrap();
    assert_eq!(values, (1024..2048).map(Value::Int64).collect::<Vec<_>>());
}
