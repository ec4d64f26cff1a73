use olap_engine::common::OlapError;
use olap_engine::compression::{compress, decompress};
use olap_engine::encoding::{decode, encode};
use olap_engine::field_type::{CompressionType, EncodingType, Value};

fn int64s(xs: &[i64]) -> Vec<Value> {
    xs.iter().map(|x| Value::Int64(*x)).collect()
}

#[test]
fn plain_lays_values_out_little_endian() {
    let values = vec![
        Value::Null,
        Value::Int8(-2),
        Value::Int16(0x0102),
        Value::Int32(0x01020304),
        Value::Int64(1),
        Value::Float32(1.0f32.to_bits()),
        Value::Float64(1.0f64.to_bits()),
        Value::Bytes(b"ab".to_vec()),
    ];
    let bytes = encode(&values, EncodingType::Plain).unwrap();
    let expected: Vec<u8> = vec![
        0, 0xfe, 2, 1, 4, 3, 2, 1, 1, 0, 0, 0, 0, 0, 0, 0, 0, 0, 0x80, 0x3f, 0, 0, 0, 0, 0, 0,
        0xf0, 0x3f, 2, 0, 0, 0, b'a', b'b',
    ];
    assert_eq!(bytes, expected);
}

#[test]
fn plain_round_trips_a_single_int64() {
    for v in [0i64, 1, -1, i64::MIN, i64::MAX, 1_000_000] {
        let bytes = encode(&[Value::Int64(v)], EncodingType::Plain).unwrap();
        assert_eq!(decode(&bytes, EncodingType::Plain, 1).unwrap(), vec![Value::Int64(v)]);
    }
}

#[test]
fn plain_decoder_reads_whole_groups_of_eight_bytes() {
    let bytes = encode(&[Value::Int32(5)], EncodingType::Plain).unwrap();
    assert_eq!(bytes.len(), 4);
    assert_eq!(decode(&bytes, EncodingType::Plain, 1).unwrap(), Vec::<Value>::new());
    let two = encode(&int64s(&[7, 8, 9]), EncodingType::Plain).unwrap();
    assert_eq!(decode(&two, EncodingType::Plain, 2).unwrap(), int64s(&[7, 8]));
    assert_eq!(decode(&two, EncodingType::Plain, 10).unwrap(), int64s(&[7, 8, 9]));
}

#[test]
fn delta_writes_base_and_differences() {
    let bytes = encode(&int64s(&[10, 13, 11]), EncodingType::DeltaBinary).unwrap();
    let expected: Vec<u8> = vec![
        10, 0, 0, 0, 0, 0, 0, 0, 3, 0, 0, 0, 0, 0, 0, 0, 0xfe, 0xff, 0xff, 0xff, 0xff, 0xff, 0xff,
        0xff,
    ];
    assert_eq!(bytes, expected);
    assert_eq!(encode(&[], EncodingType::DeltaBinary).unwrap(), Vec::<u8>::new());
}

#[test]
fn delta_round_trips_every_integer_width() {
    let values = vec![Value::Int8(-5), Value::Int16(300), Value::Int32(-70000), Value::Int64(1 << 40)];
    let bytes = encode(&values, EncodingType::DeltaBinary).unwrap();
    assert_eq!(
        decode(&bytes, EncodingType::DeltaBinary, 4).unwrap(),
        int64s(&[-5, 300, -70000, 1 << 40])
    );
    for v in [Value::Int8(7), Value::Int16(-7), Value::Int32(7), Value::Int64(-7)] {
        let expected = v.as_i64().unwrap();
        let bytes = encode(&[v], EncodingType::DeltaBinary).unwrap();
        assert_eq!(
            decode(&bytes, EncodingType::DeltaBinary, 1).unwrap(),
            vec![Value::Int64(expected)]
        );
    }
}

#[test]
fn delta_round_trips_a_monotone_sequence() {
    let xs: Vec<i64> = (0..3000).map(|i| 1_000_000 + 7 * i).collect();
    let bytes = encode(&int64s(&xs), EncodingType::DeltaBinary).unwrap();
    assert_eq!(decode(&bytes, EncodingType::DeltaBinary, xs.len()).unwrap(), int64s(&xs));
}

#[test]
fn delta_wraps_at_the_ends_of_the_range() {
    let xs = [i64::MIN, i64::MAX, 0, i64::MIN];
    let bytes = encode(&int64s(&xs), EncodingType::DeltaBinary).unwrap();
    assert_eq!(decode(&bytes, EncodingType::DeltaBinary, 4).unwrap(), int64s(&xs));
}

#[test]
fn delta_takes_other_values_as_zero() {
    let values = vec![Value::Int64(4), Value::Null, Value::Bytes(vec![1]), Value::Float64(0)];
    let bytes = encode(&values, EncodingType::DeltaBinary).unwrap();
    assert_eq!(decode(&bytes, EncodingType::DeltaBinary, 4).unwrap(), int64s(&[4, 0, 0, 0]));
}

#[test]
fn delta_decoder_reads_the_base_even_for_count_zero() {
    let bytes = encode(&int64s(&[10, 13]), EncodingType::DeltaBinary).unwrap();
    assert_eq!(decode(&bytes, EncodingType::DeltaBinary, 0).unwrap(), int64s(&[10]));
    assert_eq!(decode(&bytes[..7], EncodingType::DeltaBinary, 2).unwrap(), Vec::<Value>::new());
    assert_eq!(decode(&bytes[..15], EncodingType::DeltaBinary, 2).unwrap(), int64s(&[10]));
}

#[test]
fn run_length_writes_one_pair_per_run() {
    let values = int64s(&[5, 5, 5, 9, 5]);
    let bytes = encode(&values, EncodingType::RunLength).unwrap();
    let expected: Vec<u8> = vec![
        3, 0, 0, 0, 5, 0, 0, 0, 0, 0, 0, 0, 1, 0, 0, 0, 9, 0, 0, 0, 0, 0, 0, 0, 1, 0, 0, 0, 5, 0,
        0, 0, 0, 0, 0, 0,
    ];
    assert_eq!(bytes, expected);
    assert_eq!(decode(&bytes, EncodingType::RunLength, 0).unwrap(), values);
    assert_eq!(encode(&[], EncodingType::RunLength).unwrap(), Vec::<u8>::new());
}

#[test]
fn run_length_projects_other_values_to_integers() {
    let values = vec![
        Value::Int32(7),
        Value::Int32(7),
        Value::Bytes(b"x".to_vec()),
        Value::Bytes(b"x".to_vec()),
        Value::Null,
    ];
    let bytes = encode(&values, EncodingType::RunLength).unwrap();
    assert_eq!(bytes.len(), 36);
    assert_eq!(decode(&bytes, EncodingType::RunLength, 5).unwrap(), int64s(&[7, 7, 0, 0, 0]));
}

#[test]
fn run_length_splits_runs_at_not_a_number() {
    let nan = Value::Float64(f64::NAN.to_bits());
    let bytes = encode(&[nan.clone(), nan], EncodingType::RunLength).unwrap();
    assert_eq!(bytes.len(), 24);
    let zeros = [Value::Float64(0.0f64.to_bits()), Value::Float64((-0.0f64).to_bits())];
    assert_eq!(encode(&zeros, EncodingType::RunLength).unwrap().len(), 12);
}

#[test]
fn dictionary_lists_distinct_keys_in_order_of_first_appearance() {
    let values = vec![
        Value::Bytes(b"paid".to_vec()),
        Value::Bytes(b"new".to_vec()),
        Value::Bytes(b"paid".to_vec()),
    ];
    let bytes = encode(&values, EncodingType::Dictionary).unwrap();
    let expected: Vec<u8> = vec![
        2, 0, 0, 0, 4, 0, 0, 0, b'p', b'a', b'i', b'd', 3, 0, 0, 0, b'n', b'e', b'w', 0, 0, 0, 0,
        1, 0, 0, 0, 0, 0, 0, 0,
    ];
    assert_eq!(bytes, expected);
    assert_eq!(decode(&bytes, EncodingType::Dictionary, 3).unwrap(), values);
}

#[test]
fn dictionary_cardinality_is_the_number_of_distinct_values() {
    let words = ["pending", "paid", "shipped", "delivered", "cancelled"];
    let values: Vec<Value> =
        (0..1000).map(|i| Value::Bytes(words[i % 5].as_bytes().to_vec())).collect();
    let bytes = encode(&values, EncodingType::Dictionary).unwrap();
    assert_eq!(u32::from_le_bytes([bytes[0], bytes[1], bytes[2], bytes[3]]), 5);
    assert_eq!(decode(&bytes, EncodingType::Dictionary, 1000).unwrap(), values);
}

#[test]
fn dictionary_keys_of_other_values() {
    let values = vec![
        Value::Null,
        Value::Int8(-5),
        Value::Int64(120),
        Value::Int32(120),
        Value::Float32(1.0f32.to_bits()),
    ];
    let bytes = encode(&values, EncodingType::Dictionary).unwrap();
    let decoded = decode(&bytes, EncodingType::Dictionary, 5).unwrap();
    assert_eq!(
        decoded,
        vec![
            Value::Bytes(b"NULL".to_vec()),
            Value::Bytes(b"-5".to_vec()),
            Value::Bytes(b"120".to_vec()),
            Value::Bytes(b"120".to_vec()),
            Value::Bytes(vec![0x3f, 0x80, 0, 0]),
        ]
    );
    assert_eq!(u32::from_le_bytes([bytes[0], bytes[1], bytes[2], bytes[3]]), 4);
}

#[test]
fn dictionary_decoder_rejects_data_without_a_header() {
    match decode(&[1, 2, 3], EncodingType::Dictionary, 1) {
        Err(OlapError::Encoding(msg)) => assert_eq!(msg, "dict: data too short"),
        other => panic!("unexpected outcome: {:?}", other),
    }
}

#[test]
fn dictionary_decoder_tolerates_cut_off_entries_and_unknown_codes() {
    let data: Vec<u8> = vec![1, 0, 0, 0, 1, 0, 0, 0, b'a', 0, 0, 0, 0, 9, 0, 0, 0, 7];
    assert_eq!(
        decode(&data, EncodingType::Dictionary, 5).unwrap(),
        vec![Value::Bytes(b"a".to_vec()), Value::Bytes(vec![])]
    );
    let cut: Vec<u8> = vec![2, 0, 0, 0, 200, 0, 0, 0, 1, 0, 0, 0];
    assert_eq!(
        decode(&cut, EncodingType::Dictionary, 5).unwrap(),
        vec![Value::Bytes(vec![])]
    );
}

#[test]
fn uncompressed_blocks_are_copies() {
    let data = b"some bytes".to_vec();
    assert_eq!(compress(&data, CompressionType::Uncompressed).unwrap(), data);
    assert_eq!(decompress(&data, CompressionType::Uncompressed, 0).unwrap(), data);
}

#[test]
fn lz4_blocks_decompress_to_the_original() {
    let data: Vec<u8> = (0..20_000u32).map(|i| (i % 7) as u8).collect();
    let block = compress(&data, CompressionType::Lz4).unwrap();
    assert!(block.len() < data.len());
    assert_ne!(block, data);
    assert_eq!(decompress(&block, CompressionType::Lz4, data.len()).unwrap(), data);
    let empty = compress(&[], CompressionType::Lz4).unwrap();
    assert_eq!(decompress(&empty, CompressionType::Lz4, 0).unwrap(), Vec::<u8>::new());
}

#[test]
fn lz4_rejects_malformed_blocks() {
    match decompress(&[0xff, 0xff, 0xff, 0xff, 0xff], CompressionType::Lz4, 100) {
        Err(OlapError::Compression(_)) => {}
        other => panic!("unexpected outcome: {:?}", other),
    }
    let data = b"aaaaaaaaaaaaaaaaaaaaaaaaaaaaaaaaaaaaaaaaaaaaaaaa".to_vec();
    let block = compress(&data, CompressionType::Lz4).unwrap();
    match decompress(&block, CompressionType::Lz4, usize::MAX) {
        Err(OlapError::Compression(_)) => {}
        other => panic!("unexpected outcome: {:?}", other),
    }
}
