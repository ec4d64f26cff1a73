use olap_engine::index::{
    bytes_less, BloomFilter, OrdinalIndex, ShortKeyIndex, ZoneMapIndex,
};

#[test]
fn byte_strings_compare_lexicographically() {
    assert!(bytes_less(b"2024-03-15", b"2024-07-01"));
    assert!(!bytes_less(b"2024-07-01", b"2024-07-01"));
    assert!(!bytes_less(b"2025-06-01", b"2025-01-01"));
    assert!(bytes_less(b"", b"a"));
    assert!(bytes_less(b"ab", b"abc"));
    assert!(!bytes_less(b"abc", b"ab"));
    assert!(!bytes_less(b"", b""));
    assert!(bytes_less(&[1, 255], &[2]));
}

#[test]
fn ordinal_index_finds_the_page_of_a_row() {
    let mut index = OrdinalIndex::default();
    assert_eq!(index.find_page_offset(0), None);
    assert_eq!(index.page_count(), 0);
    index.add(0, 12);
    index.add(1024, 500);
    index.add(2048, 900);
    assert_eq!(index.page_count(), 3);
    assert_eq!(index.find_page_offset(0), Some(12));
    assert_eq!(index.find_page_offset(1023), Some(12));
    assert_eq!(index.find_page_offset(1024), Some(500));
    assert_eq!(index.find_page_offset(2047), Some(500));
    assert_eq!(index.find_page_offset(2048), Some(900));
    assert_eq!(index.find_page_offset(u32::MAX), Some(900));
    assert_eq!(index.entry(1), (1024, 500));
}

#[test]
fn ordinal_index_gives_the_first_page_for_rows_before_it() {
    let mut index = OrdinalIndex::new();
    index.add(100, 7);
    index.add(200, 9);
    assert_eq!(index.find_page_offset(5), Some(7));
}

#[test]
fn ordinal_index_serialises_little_endian() {
    let mut index = OrdinalIndex::new();
    index.add(1, 0x0102030405060708);
    index.add(1024, 2);
    let bytes = index.serialize();
    let expected: Vec<u8> = vec![
        2, 0, 0, 0, 1, 0, 0, 0, 8, 7, 6, 5, 4, 3, 2, 1, 0, 4, 0, 0, 2, 0, 0, 0, 0, 0, 0, 0,
    ];
    assert_eq!(bytes, expected);
    let back = OrdinalIndex::deserialize(&bytes);
    assert_eq!(back.page_count(), 2);
    assert_eq!(back.entry(0), (1, 0x0102030405060708));
    assert_eq!(back.entry(1), (1024, 2));
    assert_eq!(back.clone().serialize(), bytes);
}

#[test]
fn ordinal_index_reads_only_whole_entries() {
    assert_eq!(OrdinalIndex::deserialize(&[1, 0, 0]).page_count(), 0);
    let cut: Vec<u8> = vec![3, 0, 0, 0, 1, 0, 0, 0, 8, 7, 6, 5, 4, 3, 2, 1, 9, 9];
    let index = OrdinalIndex::deserialize(&cut);
    assert_eq!(index.page_count(), 1);
    assert_eq!(index.entry(0), (1, 0x0102030405060708));
}

#[test]
fn rebased_ordinal_index_shifts_every_offset() {
    let mut index = OrdinalIndex::new();
    index.add(0, 0);
    index.add(1024, 300);
    let shifted = index.rebased(12);
    assert_eq!(shifted.entry(0), (0, 12));
    assert_eq!(shifted.entry(1), (1024, 312));
}

#[test]
fn zone_map_selects_overlapping_pages() {
    let mut zones = ZoneMapIndex::default();
    zones.add_page(0, b"a".to_vec(), b"f".to_vec(), false);
    zones.add_page(1, b"g".to_vec(), b"m".to_vec(), false);
    zones.add_page(2, b"n".to_vec(), b"z".to_vec(), true);
    assert_eq!(zones.filter(b"b", b"c"), vec![0]);
    assert_eq!(zones.filter(b"f", b"g"), vec![0, 1]);
    assert_eq!(zones.filter(b"a", b"z"), vec![0, 1, 2]);
    assert_eq!(zones.filter(b"zz", b"zzz"), Vec::<u32>::new());
    assert_eq!(zones.filter(b"m", b"m"), vec![1]);
    assert_eq!(zones.filter(b"c", b"b"), vec![0]);
}

#[test]
fn zone_map_serialises_entries_with_lengths() {
    let mut zones = ZoneMapIndex::new();
    zones.add_page(7, b"ab".to_vec(), b"c".to_vec(), true);
    let expected: Vec<u8> =
        vec![1, 0, 0, 0, 7, 0, 0, 0, 1, 2, 0, 0, 0, b'a', b'b', 1, 0, 0, 0, b'c'];
    assert_eq!(zones.serialize(), expected);
    assert_eq!(ZoneMapIndex::new().serialize(), vec![0, 0, 0, 0]);
}

#[test]
fn short_key_index_samples_every_1024th_row() {
    let mut index = ShortKeyIndex::default();
    index.maybe_add(0, b"a".to_vec());
    index.maybe_add(1, b"b".to_vec());
    index.maybe_add(1023, b"c".to_vec());
    index.maybe_add(1024, b"d".to_vec());
    index.maybe_add(2048, b"k".to_vec());
    let expected: Vec<u8> = vec![
        3, 0, 0, 0, 0, 0, 0, 0, 1, 0, 0, 0, b'a', 0, 4, 0, 0, 1, 0, 0, 0, b'd', 0, 8, 0, 0, 1, 0,
        0, 0, b'k',
    ];
    assert_eq!(index.serialize(), expected);
    assert_eq!(index.lower_bound(b"a"), 0);
    assert_eq!(index.lower_bound(b"b"), 0);
    assert_eq!(index.lower_bound(b"d"), 0);
    assert_eq!(index.lower_bound(b"e"), 1024);
    assert_eq!(index.lower_bound(b"z"), 2048);
    assert_eq!(ShortKeyIndex::new().lower_bound(b"z"), 0);
}

#[test]
fn bloom_filter_has_ten_bits_per_value_and_at_least_64() {
    assert_eq!(BloomFilter::new(0).serialize().len(), 4 + 8);
    assert_eq!(&BloomFilter::new(0).serialize()[..4], &[64, 0, 0, 0]);
    assert_eq!(BloomFilter::new(4096).serialize().len(), 4 + 5120);
    assert_eq!(&BloomFilter::new(4096).serialize()[..4], &[0, 0xa0, 0, 0]);
    assert_eq!(BloomFilter::new(7).serialize().len(), 4 + 9);
}

#[test]
fn bloom_filter_sets_the_seven_probes_of_a_value() {
    let mut filter = BloomFilter::new(1);
    assert!(!filter.may_contain(b"abc"));
    filter.add(b"abc");
    assert!(filter.may_contain(b"abc"));
    assert_eq!(filter.serialize(), vec![64, 0, 0, 0, 2, 16, 160, 0, 4, 8, 64, 0]);
}

#[test]
fn bloom_filter_finds_every_added_value() {
    let mut filter = BloomFilter::new(4096);
    for i in 0..4096u32 {
        filter.add(format!("key-{}", i).as_bytes());
    }
    for i in 0..4096u32 {
        assert!(filter.may_contain(format!("key-{}", i).as_bytes()));
    }
}

#[test]
fn bloom_filter_false_positive_rate_stays_below_ten_percent() {
    let mut filter = BloomFilter::new(4096);
    for i in 0..4096u32 {
        filter.add(format!("key-{}", i).as_bytes());
    }
    let mut hits = 0;
    let probes = 20_000u32;
    for i in 0..probes {
        if filter.may_contain(format!("other-{}", i).as_bytes()) {
            hits += 1;
        }
    }
    assert!(hits * 10 <= probes, "false positives: {} of {}", hits, probes);
}

#[test]
fn bloom_filter_is_read_back_from_its_bytes() {
    let mut filter = BloomFilter::new(100);
    filter.add(b"x");
    filter.add(b"y");
    let bytes = filter.serialize();
    let back = BloomFilter::deserialize(&bytes);
    assert_eq!(back.serialize(), bytes);
    assert!(back.may_contain(b"x"));
    assert!(back.may_contain(b"y"));
    assert_eq!(back.clone().serialize(), bytes);
    assert_eq!(BloomFilter::deserialize(&[1, 2]).serialize(), vec![0, 0, 0, 0]);
}
