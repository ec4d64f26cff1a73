use olap_engine::common::OlapError;
use olap_engine::field_type::{CompressionType, EncodingType, Value};
use olap_engine::page::{frame_page, PageBuilder, PageDecoder, PAGE_MAX_ROWS};

fn reference_crc32(bytes: &[u8]) -> u32 {
    let mut c: u32 = 0xffff_ffff;
    for b in bytes {
        c ^= *b as u32;
        for _ in 0..8 {
            c = if c & 1 == 1 { (c >> 1) ^ 0xedb8_8320 } else { c >> 1 };
        }
    }
    c ^ 0xffff_ffff
}

#[test]
fn reference_checksum_matches_the_known_vector() {
    assert_eq!(reference_crc32(b"123456789"), 0xcbf4_3926);
}

#[test]
fn uncompressed_plain_page_has_the_stated_layout() {
    let mut builder = PageBuilder::new(0, EncodingType::Plain, CompressionType::Uncompressed);
    builder.add(Value::Int64(42));
    assert_eq!(builder.len(), 1);
    assert!(!builder.is_empty());
    assert!(!builder.is_full());
    let page = builder.build().unwrap();
    let expected: Vec<u8> = vec![
        1, 0, 0, 0, 0, 0, 0, 0, 8, 0, 0, 0, 0, 42, 0, 0, 0, 0, 0, 0, 0, 0xe6, 0xeb, 0x6b, 0xec,
    ];
    assert_eq!(page, expected);
}

#[test]
fn page_checksum_is_the_crc32_of_what_precedes_it() {
    let mut builder = PageBuilder::new(2048, EncodingType::DeltaBinary, CompressionType::Lz4);
    for i in 0..100 {
        builder.add(Value::Int64(1000 + i));
    }
    let page = builder.build().unwrap();
    let n = page.len();
    let stored = u32::from_le_bytes([page[n - 4], page[n - 3], page[n - 2], page[n - 1]]);
    assert_eq!(stored, reference_crc32(&page[..n - 4]));
    assert_eq!(u32::from_le_bytes([page[0], page[1], page[2], page[3]]), 100);
    assert_eq!(u32::from_le_bytes([page[4], page[5], page[6], page[7]]), 2048);
    assert_eq!(u32::from_le_bytes([page[8], page[9], page[10], page[11]]), 800);
    assert_eq!(page[12], 0);
}

#[test]
fn framing_a_payload_adds_header_and_checksum() {
    let page = frame_page(3, 7, 9, &[1, 2, 3]);
    assert_eq!(page.len(), 20);
    assert_eq!(&page[..13], &[3, 0, 0, 0, 7, 0, 0, 0, 9, 0, 0, 0, 0]);
    assert_eq!(&page[13..16], &[1, 2, 3]);
    assert_eq!(
        u32::from_le_bytes([page[16], page[17], page[18], page[19]]),
        reference_crc32(&page[..16])
    );
}

#[test]
fn pages_decode_to_what_was_built() {
    for compression in [CompressionType::Uncompressed, CompressionType::Lz4] {
        let mut builder = PageBuilder::new(1024, EncodingType::DeltaBinary, compression);
        let mut expected = Vec::new();
        for i in 0..PAGE_MAX_ROWS {
            builder.add(Value::Int64(5 * i as i64));
            expected.push(Value::Int64(5 * i as i64));
        }
        assert!(builder.is_full());
        let page = builder.build().unwrap();
        let decoded = PageDecoder::decode(&page, EncodingType::DeltaBinary, compression).unwrap();
        assert_eq!(decoded.value_count, 1024);
        assert_eq!(decoded.first_row_id, 1024);
        assert_eq!(decoded.values, expected);
    }
}

#[test]
fn empty_page_builds_and_decodes() {
    let builder = PageBuilder::new(0, EncodingType::Plain, CompressionType::Lz4);
    assert!(builder.is_empty());
    assert_eq!(builder.first_row_id(), 0);
    let page = builder.build().unwrap();
    let decoded = PageDecoder::decode(&page, EncodingType::Plain, CompressionType::Lz4).unwrap();
    assert_eq!(decoded.value_count, 0);
    assert_eq!(decoded.values, Vec::<Value>::new());
}

#[test]
fn every_single_bit_mutation_of_a_page_fails_the_checksum() {
    let mut builder = PageBuilder::new(0, EncodingType::Dictionary, CompressionType::Lz4);
    for word in ["paid", "new", "paid", "sent"] {
        builder.add(Value::Bytes(word.as_bytes().to_vec()));
    }
    let page = builder.build().unwrap();
    for position in 0..page.len() {
        for bit in 0..8 {
            let mut changed = page.clone();
            changed[position] ^= 1 << bit;
            match PageDecoder::decode(&changed, EncodingType::Dictionary, CompressionType::Lz4) {
                Err(OlapError::ChecksumMismatch) => {}
                other => panic!(
                    "byte {} bit {}: unexpected outcome {:?}",
                    position,
                    bit,
                    other.map(|d| d.values)
                ),
            }
        }
    }
}

#[test]
fn short_pages_are_rejected() {
    match PageDecoder::decode(&[0u8; 16], EncodingType::Plain, CompressionType::Uncompressed) {
        Err(OlapError::SegmentIo(msg)) => assert_eq!(msg, "page data too short"),
        other => panic!("unexpected outcome: {:?}", other.map(|d| d.values)),
    }
}

#[test]
fn page_with_unreadable_payload_reports_compression() {
    let page = frame_page(1, 0, 8, &[0xff, 0xff, 0xff, 0xff, 0xff, 0xff]);
    match PageDecoder::decode(&page, EncodingType::Plain, CompressionType::Lz4) {
        Err(OlapError::Compression(_)) => {}
        other => panic!("unexpected outcome: {:?}", other.map(|d| d.values)),
    }
}

#[test]
fn page_with_undecodable_values_reports_encoding() {
    let page = frame_page(1, 0, 2, &[1, 2]);
    match PageDecoder::decode(&page, EncodingType::Dictionary, CompressionType::Uncompressed) {
        Err(OlapError::Encoding(_)) => {}
        other => panic!("unexpected outcome: {:?}", other.map(|d| d.values)),
    }
}
