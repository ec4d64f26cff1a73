use olap_engine::common::OlapError;
use olap_engine::field_type::{ColumnMeta, CompressionType, EncodingType, FieldType, Value};
use olap_engine::segment::{SegmentReader, SegmentWriter};

fn order_schema() -> Vec<ColumnMeta> {
    vec![
        ColumnMeta::new(0, "order_date", FieldType::Int32).with_encoding(EncodingType::DeltaBinary),
        ColumnMeta::new(1, "order_id", FieldType::Int64).with_encoding(EncodingType::DeltaBinary),
        ColumnMeta::new(2, "user_id", FieldType::Int64).with_encoding(EncodingType::DeltaBinary),
        ColumnMeta::new(3, "amount", FieldType::Float64).with_encoding(EncodingType::Plain),
        ColumnMeta::new(4, "status", FieldType::Bytes)
            .with_encoding(EncodingType::Dictionary)
            .with_compression(CompressionType::Lz4)
            .nullable(),
    ]
}

fn order_segment(rows: u32) -> Vec<u8> {
    let statuses = ["pending", "paid", "shipped", "delivered", "cancelled"];
    let mut writer = SegmentWriter::new(order_schema());
    for i in 0..rows {
        let row = vec![
            Value::Int32(20240101 + (i as i32 % 180)),
            Value::Int64(1_000_000 + i as i64),
            Value::Int64(10000 + (i as i64 % 1000)),
            Value::Float64((99.9 + i as f64 * 0.5).to_bits()),
            Value::Bytes(statuses[i as usize % 5].as_bytes().to_vec()),
        ];
        writer.append_row(row).unwrap();
    }
    assert_eq!(writer.num_rows(), rows);
    writer.finalize().unwrap()
}

#[test]
fn segment_round_trip_of_two_thousand_rows() {
    let bytes = order_segment(2000);
    let reader = SegmentReader::open(bytes, order_schema()).unwrap();
    assert_eq!(reader.num_rows(), 2000);
    let order_ids = reader.read_column(1).unwrap();
    assert_eq!(
        &order_ids[..5],
        &[
            Value::Int64(1_000_000),
            Value::Int64(1_000_001),
            Value::Int64(1_000_002),
            Value::Int64(1_000_003),
            Value::Int64(1_000_004),
        ]
    );
}

#[test]
fn flipped_footer_byte_fails_the_checksum() {
    let mut bytes = order_segment(2000);
    let n = bytes.len();
    let footer_len = u32::from_le_bytes([bytes[n - 12], bytes[n - 11], bytes[n - 10], bytes[n - 9]]) as usize;
    let inside = n - 16 - footer_len + 3;
    bytes[inside] ^= 0xff;
    match SegmentReader::open(bytes, order_schema()) {
        Err(OlapError::ChecksumMismatch) => {}
        other => panic!("unexpected outcome: {:?}", other.map(|r| r.num_rows())),
    }
}
