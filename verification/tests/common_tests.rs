use olap_engine::common::{ColumnType, OlapError, Version};
use olap_engine::field_type::{
    ColumnMeta, CompressionType, EncodingType, FieldType, Value,
};

#[test]
fn version_renders_as_bracketed_interval() {
    assert_eq!(Version::new(0, 3).to_text(), "[0,3]");
    assert_eq!(Version::new(-12, 340).to_text(), "[-12,340]");
    assert_eq!(Version::new(i64::MIN, i64::MAX).to_text(), "[-9223372036854775808,9223372036854775807]");
}

#[test]
fn point_version_has_equal_ends() {
    let v = Version::point(7);
    assert_eq!(v, Version::new(7, 7));
    assert_eq!(v.start, 7);
    assert_eq!(v.end, 7);
}

#[test]
fn every_error_has_its_message() {
    assert_eq!(OlapError::TabletNotFound(42).to_text(), "tablet not found: tablet_id=42");
    assert_eq!(OlapError::TableNotFound(1, 1000).to_text(), "table not found: db_id=1 table_id=1000");
    assert_eq!(OlapError::DatabaseNotFound(0).to_text(), "database not found: db_id=0");
    assert_eq!(
        OlapError::PartitionNotFound("2025-06-01".to_string()).to_text(),
        "partition not found for key: 2025-06-01"
    );
    assert_eq!(
        OlapError::VersionExists(Version::new(2, 3)).to_text(),
        "version already exists: [2,3]"
    );
    assert_eq!(
        OlapError::MissingVersions("[0,100]".to_string()).to_text(),
        "missing versions in range [0,100]"
    );
    assert_eq!(OlapError::SegmentIo("x".to_string()).to_text(), "segment I/O error: x");
    assert_eq!(OlapError::Encoding("y".to_string()).to_text(), "encoding error: y");
    assert_eq!(OlapError::Compression("z".to_string()).to_text(), "compression error: z");
    assert_eq!(OlapError::ChecksumMismatch.to_text(), "checksum mismatch");
    assert_eq!(OlapError::SchemaMismatch.to_text(), "schema mismatch");
    assert_eq!(OlapError::Unsupported("later".to_string()).to_text(), "unsupported: later");
    assert_eq!(
        OlapError::TabletNotFound(u64::MAX).to_text(),
        "tablet not found: tablet_id=18446744073709551615"
    );
}

#[test]
fn field_type_follows_column_type() {
    assert_eq!(FieldType::from(ColumnType::Int8), FieldType::Int8);
    assert_eq!(FieldType::from(ColumnType::Int16), FieldType::Int16);
    assert_eq!(FieldType::from(ColumnType::Int32), FieldType::Int32);
    assert_eq!(FieldType::from(ColumnType::Int64), FieldType::Int64);
    assert_eq!(FieldType::from(ColumnType::Float32), FieldType::Float32);
    assert_eq!(FieldType::from(ColumnType::Float64), FieldType::Float64);
    assert_eq!(FieldType::from(ColumnType::Varchar), FieldType::Bytes);
    assert_eq!(FieldType::from(ColumnType::Date), FieldType::Date);
}

#[test]
fn fixed_sizes_of_field_types() {
    assert_eq!(FieldType::Int8.fixed_size(), Some(1));
    assert_eq!(FieldType::Int16.fixed_size(), Some(2));
    assert_eq!(FieldType::Int32.fixed_size(), Some(4));
    assert_eq!(FieldType::Date.fixed_size(), Some(4));
    assert_eq!(FieldType::Int64.fixed_size(), Some(8));
    assert_eq!(FieldType::Float32.fixed_size(), Some(4));
    assert_eq!(FieldType::Float64.fixed_size(), Some(8));
    assert_eq!(FieldType::Bytes.fixed_size(), None);
    assert!(FieldType::Date.is_integer());
    assert!(FieldType::Int8.is_integer());
    assert!(!FieldType::Float64.is_integer());
    assert!(!FieldType::Bytes.is_integer());
}

#[test]
fn column_meta_picks_default_encoding_by_type() {
    let ints = ColumnMeta::new(0, "id", FieldType::Int64);
    assert_eq!(ints.encoding, EncodingType::DeltaBinary);
    assert_eq!(ints.compression, CompressionType::Lz4);
    assert_eq!(ints.max_length, 65535);
    assert!(!ints.is_nullable);
    assert_eq!(ints.name, "id");
    assert_eq!(ints.column_id, 0);
    assert_eq!(ColumnMeta::new(1, "d", FieldType::Date).encoding, EncodingType::DeltaBinary);
    assert_eq!(ColumnMeta::new(2, "s", FieldType::Bytes).encoding, EncodingType::Dictionary);
    assert_eq!(ColumnMeta::new(3, "f", FieldType::Float64).encoding, EncodingType::Plain);
    assert_eq!(ColumnMeta::new(4, "g", FieldType::Float32).encoding, EncodingType::Plain);
}

#[test]
fn column_meta_builders_change_one_setting_each() {
    let meta = ColumnMeta::new(4, "status", FieldType::Bytes)
        .with_encoding(EncodingType::RunLength)
        .with_compression(CompressionType::Uncompressed)
        .nullable();
    assert_eq!(meta.encoding, EncodingType::RunLength);
    assert_eq!(meta.compression, CompressionType::Uncompressed);
    assert!(meta.is_nullable);
    assert_eq!(meta.field_type, FieldType::Bytes);
    assert_eq!(meta.name, "status");
    let copy = meta.duplicate();
    assert_eq!(copy.name, "status");
    assert_eq!(copy.encoding, EncodingType::RunLength);
}

#[test]
fn values_project_to_integers() {
    assert_eq!(Value::Int8(-3).as_i64(), Some(-3));
    assert_eq!(Value::Int16(300).as_i64(), Some(300));
    assert_eq!(Value::Int32(-70000).as_i64(), Some(-70000));
    assert_eq!(Value::Int64(i64::MIN).as_i64(), Some(i64::MIN));
    assert_eq!(Value::Null.as_i64(), None);
    assert_eq!(Value::Float32(1.5f32.to_bits()).as_i64(), None);
    assert_eq!(Value::Float64(1.5f64.to_bits()).as_i64(), None);
    assert_eq!(Value::Bytes(vec![1]).as_i64(), None);
}

#[test]
fn only_bytes_values_have_bytes() {
    assert_eq!(Value::Bytes(vec![1, 2, 3]).as_bytes(), Some(&[1u8, 2, 3][..]));
    assert_eq!(Value::Int64(1).as_bytes(), None);
    assert_eq!(Value::Null.as_bytes(), None);
}

#[test]
fn sort_keys_are_big_endian() {
    assert_eq!(Value::Null.to_sort_key(), Vec::<u8>::new());
    assert_eq!(Value::Int8(-1).to_sort_key(), vec![0xff]);
    assert_eq!(Value::Int16(0x0102).to_sort_key(), vec![1, 2]);
    assert_eq!(Value::Int32(0x01020304).to_sort_key(), vec![1, 2, 3, 4]);
    assert_eq!(Value::Int64(0x0102030405060708).to_sort_key(), vec![1, 2, 3, 4, 5, 6, 7, 8]);
    assert_eq!(Value::Float32(1.0f32.to_bits()).to_sort_key(), vec![0x3f, 0x80, 0, 0]);
    assert_eq!(
        Value::Float64(1.0f64.to_bits()).to_sort_key(),
        vec![0x3f, 0xf0, 0, 0, 0, 0, 0, 0]
    );
    assert_eq!(Value::Bytes(b"abc".to_vec()).to_sort_key(), b"abc".to_vec());
}

#[test]
fn value_equality_compares_floats_numerically() {
    assert_eq!(Value::Int32(5), Value::Int32(5));
    assert_ne!(Value::Int32(5), Value::Int64(5));
    assert_eq!(Value::Null, Value::Null);
    assert_eq!(Value::Bytes(vec![1, 2]), Value::Bytes(vec![1, 2]));
    assert_ne!(Value::Bytes(vec![1, 2]), Value::Bytes(vec![1]));
    assert_eq!(Value::Float64(0.0f64.to_bits()), Value::Float64((-0.0f64).to_bits()));
    assert_ne!(Value::Float64(f64::NAN.to_bits()), Value::Float64(f64::NAN.to_bits()));
    assert_eq!(Value::Float32(0.0f32.to_bits()), Value::Float32((-0.0f32).to_bits()));
    assert_ne!(Value::Float32(f32::NAN.to_bits()), Value::Float32(f32::NAN.to_bits()));
    assert_eq!(Value::Float64(2.5f64.to_bits()), Value::Float64(2.5f64.to_bits()));
    assert_ne!(Value::Float64(2.5f64.to_bits()), Value::Float64(3.5f64.to_bits()));
    assert_eq!(Value::Float64(f64::INFINITY.to_bits()), Value::Float64(f64::INFINITY.to_bits()));
    let copy = Value::Bytes(vec![9, 8]).clone();
    assert_eq!(copy, Value::Bytes(vec![9, 8]));
}
