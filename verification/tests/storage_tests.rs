use olap_engine::common::{AggregateType, ColumnType, CompactionType, KeysType, OlapError, Version};
use olap_engine::meta::{ColumnSchema, RowsetMeta, RowsetState, TabletMeta, TabletSchema};
use olap_engine::partition::{
    BucketType, ListPartitionItem, MaterializedIndex, Partition, PartitionInfo, PartitionPolicy,
    RangeBound, RangePartitionItem,
};
use olap_engine::storage::{PartitionSpec, StorageEngine};
use olap_engine::table::{CatalogManager, OlapTable};
use olap_engine::tablet::{score_order, Tablet, TabletManager, VersionGraph};
use std::cmp::Ordering;
use std::collections::HashMap;

fn orders_schema() -> TabletSchema {
    TabletSchema::new(
        KeysType::Duplicate,
        vec![
            ColumnSchema::key(0, "order_date", ColumnType::Date),
            ColumnSchema::key(1, "order_id", ColumnType::Int64),
            ColumnSchema::value(2, "user_id", ColumnType::Int64, AggregateType::NoAggregate),
            ColumnSchema::value(3, "amount", ColumnType::Float64, AggregateType::Sum),
            ColumnSchema::varchar(4, "status", 32, false),
        ],
    )
}

fn hash_partition(partition_id: u64, index_id: u64, tablets: Vec<u64>) -> Partition {
    Partition::new(
        partition_id,
        MaterializedIndex::new(index_id, tablets),
        BucketType::Hash { bucket_columns: vec!["order_id".to_string()], num_buckets: 4 },
    )
}

fn orders_partitions() -> PartitionInfo {
    let mut partitions = HashMap::new();
    partitions.insert(10u64, hash_partition(10, 1, vec![100, 101, 102, 103]));
    partitions.insert(11u64, hash_partition(11, 2, vec![200, 201, 202, 203]));
    PartitionInfo::range(
        vec!["order_date".to_string()],
        vec![
            RangePartitionItem { partition_id: 10, upper_bound: RangeBound("2024-07-01".to_string()) },
            RangePartitionItem { partition_id: 11, upper_bound: RangeBound("2025-01-01".to_string()) },
        ],
        partitions,
    )
}

#[test]
fn column_schemas_are_built_by_kind() {
    let key = ColumnSchema::key(0, "order_date", ColumnType::Date);
    assert!(key.is_key && !key.is_nullable);
    assert_eq!(key.aggregate_type, AggregateType::NoAggregate);
    assert_eq!(key.length, 0);
    assert_eq!(key.name, "order_date");
    let value = ColumnSchema::value(3, "amount", ColumnType::Float64, AggregateType::Sum);
    assert!(!value.is_key && value.is_nullable);
    assert_eq!(value.aggregate_type, AggregateType::Sum);
    assert_eq!(value.column_type, ColumnType::Float64);
    let text = ColumnSchema::varchar(4, "status", 32, false);
    assert_eq!(text.column_type, ColumnType::Varchar);
    assert_eq!(text.length, 32);
    assert!(text.is_nullable && !text.is_key);
    let text_key = ColumnSchema::varchar(5, "code", 8, true);
    assert!(!text_key.is_nullable && text_key.is_key);
    assert_eq!(text_key.clone().name, "code");
}

#[test]
fn schema_hash_is_the_xor_of_scaled_column_ids() {
    let schema = orders_schema();
    assert_eq!(schema.schema_hash, 2228484);
    assert_eq!(schema.schema_version, 1);
    assert_eq!(schema.num_rows_per_row_block, 1024);
    assert_eq!(schema.num_columns(), 5);
    assert_eq!(schema.keys_type, KeysType::Duplicate);
    let one = TabletSchema::new(KeysType::Unique, vec![ColumnSchema::key(1, "a", ColumnType::Int8)]);
    assert_eq!(one.schema_hash, 2654435761);
    let two = TabletSchema::new(KeysType::Aggregate, vec![ColumnSchema::key(2, "a", ColumnType::Int8)]);
    assert_eq!(two.schema_hash, 1013904226);
    assert_eq!(TabletSchema::new(KeysType::Aggregate, vec![]).schema_hash, 0);
    assert_eq!(schema.clone().schema_hash, 2228484);
}

#[test]
fn key_and_value_columns_are_told_apart() {
    let schema = orders_schema();
    let keys: Vec<&str> = schema.key_columns().iter().map(|c| c.name.as_str()).collect();
    assert_eq!(keys, vec!["order_date", "order_id"]);
    let values: Vec<&str> = schema.value_columns().iter().map(|c| c.name.as_str()).collect();
    assert_eq!(values, vec!["user_id", "amount", "status"]);
}

#[test]
fn rowset_has_one_segment_per_million_rows() {
    let rs = RowsetMeta::new(1, 100, 10, Version::new(0, 1), 2000, 4096);
    assert_eq!(rs.num_segments, 1);
    assert_eq!(rs.segment_paths, vec!["100_1_0.seg".to_string()]);
    assert_eq!(rs.state, RowsetState::Prepared);
    assert!(!rs.is_visible());
    assert_eq!(rs.num_rows, 2000);
    assert_eq!(rs.data_disk_size, 4096);
    assert_eq!(RowsetMeta::new(1, 100, 10, Version::new(0, 1), 0, 0).num_segments, 0);
    assert_eq!(RowsetMeta::new(1, 100, 10, Version::new(0, 1), 1_000_000, 0).num_segments, 1);
    let three = RowsetMeta::new(9, 7, 10, Version::new(0, 1), 2_000_001, 0);
    assert_eq!(three.num_segments, 3);
    assert_eq!(
        three.segment_paths,
        vec!["7_9_0.seg".to_string(), "7_9_1.seg".to_string(), "7_9_2.seg".to_string()]
    );
}

#[test]
fn rowset_state_follows_its_marks() {
    let mut rs = RowsetMeta::new(1, 100, 10, Version::new(0, 1), 10, 10);
    rs.state = RowsetState::Visible;
    assert!(rs.is_visible());
    rs.mark_stale();
    assert_eq!(rs.state, RowsetState::Stale);
    assert!(!rs.is_visible());
    assert_eq!(rs.clone().segment_paths, rs.segment_paths);
}

#[test]
fn tablet_meta_starts_without_rowsets() {
    let schema = orders_schema();
    let meta = TabletMeta::new(100, 10, schema);
    assert_eq!(meta.tablet_id, 100);
    assert_eq!(meta.partition_id, 10);
    assert_eq!(meta.schema_hash, 2228484);
    assert!(meta.rowsets.is_empty());
    assert_eq!(meta.cumulative_layer_point, -1);
    assert_eq!(meta.max_version, -1);
}

#[test]
fn hash_buckets_follow_fnv1a() {
    let hash = BucketType::Hash { bucket_columns: vec![], num_buckets: 4 };
    assert_eq!(hash.num_buckets(), 4);
    assert_eq!(hash.bucket_for_key("2002001"), 0);
    assert_eq!(hash.bucket_for_key("1001001"), 2);
    assert_eq!(hash.bucket_for_key("1001002"), 3);
    assert_eq!(hash.bucket_for_key("3003003"), 0);
    assert_eq!(hash.bucket_for_key(""), 1);
    assert_eq!(hash.bucket_for("1001002", 999), 3);
}

#[test]
fn random_buckets_follow_the_clock() {
    let random = BucketType::Random { num_buckets: 7 };
    assert_eq!(random.num_buckets(), 7);
    assert_eq!(random.bucket_for("anything", 15), 1);
    assert_eq!(random.bucket_for("anything", 999_999_999), 999_999_999 % 7);
    for _ in 0..100 {
        assert!(random.bucket_for_key("anything") < 7);
    }
}

#[test]
fn materialized_index_maps_buckets_to_tablets() {
    let index = MaterializedIndex::new(1, vec![100, 101]);
    assert_eq!(index.tablet_for_bucket(0), Some(100));
    assert_eq!(index.tablet_for_bucket(1), Some(101));
    assert_eq!(index.tablet_for_bucket(2), None);
}

#[test]
fn partition_routes_sort_keys_to_tablets() {
    let partition = hash_partition(10, 1, vec![100, 101, 102, 103]);
    assert_eq!(partition.visible_version, 0);
    assert!(partition.rollup_indexes.is_empty());
    assert_eq!(partition.tablet_for_key("1001001"), Some(102));
    assert_eq!(partition.tablet_for_key("2002001"), Some(100));
    assert_eq!(partition.tablet_for("1001002", 0), Some(103));
    let short = hash_partition(10, 1, vec![100, 101]);
    assert_eq!(short.tablet_for_key("1001001"), None);
}

#[test]
fn largest_range_bound_is_above_dates() {
    let max = RangeBound::max_value();
    assert_eq!(max.0.chars().count(), 64);
    assert!(max.0.chars().all(|c| c == '\u{FFFF}'));
    assert!(RangeBound("2025-01-01".to_string()) < max);
}

#[test]
fn range_partitions_take_the_first_bound_above_the_key() {
    let info = orders_partitions();
    assert_eq!(info.find_partition("2024-03-15").unwrap().partition_id, 10);
    assert_eq!(info.find_partition("2024-09-20").unwrap().partition_id, 11);
    assert_eq!(info.find_partition("2024-06-30").unwrap().partition_id, 10);
    assert_eq!(info.find_partition("2024-07-01").unwrap().partition_id, 11);
    match info.find_partition("2025-06-01") {
        Err(OlapError::PartitionNotFound(key)) => assert_eq!(key, "2025-06-01"),
        other => panic!("unexpected outcome: {:?}", other.map(|p| p.partition_id)),
    }
    match info.find_partition("2025-01-01") {
        Err(OlapError::PartitionNotFound(key)) => assert_eq!(key, "2025-01-01"),
        other => panic!("unexpected outcome: {:?}", other.map(|p| p.partition_id)),
    }
    assert_eq!(info.policy.resolve("2024-03-15"), Some(10));
    assert_eq!(info.policy.resolve("2025-06-01"), None);
}

#[test]
fn list_partitions_look_the_key_up() {
    let mut partitions = HashMap::new();
    partitions.insert(1u64, hash_partition(1, 1, vec![10, 11, 12, 13]));
    let info = PartitionInfo::list(
        vec!["region".to_string()],
        vec![
            ListPartitionItem { key: "east".to_string(), partition_id: 1 },
            ListPartitionItem { key: "west".to_string(), partition_id: 2 },
        ],
        partitions,
    );
    assert_eq!(info.find_partition("east").unwrap().partition_id, 1);
    match info.find_partition("north") {
        Err(OlapError::PartitionNotFound(key)) => assert_eq!(key, "north"),
        other => panic!("unexpected outcome: {:?}", other.map(|p| p.partition_id)),
    }
    match info.find_partition("west") {
        Err(OlapError::PartitionNotFound(key)) => assert_eq!(key, "pid=2"),
        other => panic!("unexpected outcome: {:?}", other.map(|p| p.partition_id)),
    }
    assert!(matches!(info.policy, PartitionPolicy::List { .. }));
}

#[test]
fn unpartitioned_tables_have_one_partition() {
    let info = PartitionInfo::unpartitioned(5, hash_partition(5, 1, vec![1, 2, 3, 4]));
    assert!(info.partition_columns.is_empty());
    assert_eq!(info.find_partition("whatever").unwrap().partition_id, 5);
    assert_eq!(info.find_partition("").unwrap().partition_id, 5);
}

#[test]
fn rows_route_through_partition_and_bucket() {
    let table = OlapTable::new(1000, "orders", orders_schema(), orders_partitions());
    assert_eq!(table.table_id, 1000);
    assert_eq!(table.table_name, "orders");
    let tablet = table.tablet_for_row("2024-09-20", "2002001").unwrap();
    assert!([200u64, 201, 202, 203].contains(&tablet));
    assert_eq!(tablet, 200);
    assert_eq!(table.tablet_for_row("2024-03-15", "1001001"), Ok(102));
    assert_eq!(table.tablet_for_row("2024-03-15", "1001002"), Ok(103));
    assert_eq!(table.tablet_for_row("2024-11-11", "3003003"), Ok(200));
    assert_eq!(
        table.tablet_for_row("2025-06-01", "1"),
        Err(OlapError::PartitionNotFound("2025-06-01".to_string()))
    );
}

#[test]
fn row_without_a_tablet_for_its_bucket_is_not_found() {
    let mut partitions = HashMap::new();
    partitions.insert(1u64, hash_partition(1, 1, vec![10, 11]));
    let table = OlapTable::new(
        1,
        "t",
        orders_schema(),
        PartitionInfo::unpartitioned(1, hash_partition(1, 1, vec![10, 11])),
    );
    assert_eq!(
        table.tablet_for_row("any", "1001001"),
        Err(OlapError::PartitionNotFound("1001001".to_string()))
    );
    assert_eq!(partitions.len(), 1);
}

#[test]
fn version_graph_finds_covers() {
    let mut graph = VersionGraph::default();
    assert!(graph.has_version_holes(0, 0));
    graph.add_edge(Version::new(0, 1));
    graph.add_edge(Version::new(2, 3));
    graph.add_edge(Version::new(2, 3));
    assert_eq!(
        graph.find_covering_path(0, 3),
        Some(vec![Version::new(0, 1), Version::new(2, 3)])
    );
    assert_eq!(graph.find_covering_path(2, 3), Some(vec![Version::new(2, 3)]));
    assert_eq!(graph.find_covering_path(0, 1), Some(vec![Version::new(0, 1)]));
    assert_eq!(graph.find_covering_path(0, 2), None);
    assert_eq!(graph.find_covering_path(1, 3), None);
    assert!(!graph.has_version_holes(0, 3));
    assert!(graph.has_version_holes(0, 100));
    graph.remove_edge(Version::new(2, 3));
    assert!(graph.has_version_holes(0, 3));
    graph.remove_edge(Version::new(5, 6));
    assert!(!graph.has_version_holes(0, 1));
}

#[test]
fn version_graph_prefers_larger_spans() {
    let mut graph = VersionGraph::new();
    for (s, e) in [(0, 0), (1, 1), (2, 2), (3, 3), (0, 1), (2, 3), (0, 3), (4, 9)] {
        graph.add_edge(Version::new(s, e));
    }
    assert_eq!(graph.find_covering_path(0, 3), Some(vec![Version::new(0, 3)]));
    assert_eq!(
        graph.find_covering_path(0, 2),
        Some(vec![Version::new(0, 1), Version::new(2, 2)])
    );
    assert_eq!(
        graph.find_covering_path(0, 9),
        Some(vec![Version::new(0, 3), Version::new(4, 9)])
    );
    assert_eq!(graph.find_covering_path(1, 2), Some(vec![Version::new(1, 1), Version::new(2, 2)]));
}

#[test]
fn published_rowsets_are_captured_in_order() {
    let mut tablet = Tablet::new(TabletMeta::new(100, 10, orders_schema()));
    assert_eq!(tablet.tablet_id(), 100);
    assert_eq!(tablet.schema_hash(), 2228484);
    assert_eq!(tablet.schema().num_columns(), 5);
    assert_eq!(tablet.max_version(), -1);
    tablet.add_rowset(RowsetMeta::new(1, 100, 10, Version::new(0, 1), 2000, 4096)).unwrap();
    tablet.add_rowset(RowsetMeta::new(2, 100, 10, Version::new(2, 3), 500, 50_000)).unwrap();
    let rowsets = tablet.capture_consistent_versions(0, 3).unwrap();
    let ids: Vec<u64> = rowsets.iter().map(|r| r.rowset_id).collect();
    assert_eq!(ids, vec![1, 2]);
    assert!(rowsets.iter().all(|r| r.state == RowsetState::Visible));
    assert_eq!(rowsets[0].version, Version::new(0, 1));
    assert_eq!(rowsets[1].version, Version::new(2, 3));
    assert_eq!(tablet.max_version(), 3);
}

#[test]
fn capture_over_a_hole_reports_missing_versions() {
    let mut tablet = Tablet::new(TabletMeta::new(100, 10, orders_schema()));
    tablet.add_rowset(RowsetMeta::new(1, 100, 10, Version::new(0, 1), 2000, 4096)).unwrap();
    tablet.add_rowset(RowsetMeta::new(2, 100, 10, Version::new(2, 3), 500, 50_000)).unwrap();
    match tablet.capture_consistent_versions(0, 100) {
        Err(OlapError::MissingVersions(range)) => assert_eq!(range, "[0,100]"),
        other => panic!("unexpected outcome: {:?}", other.map(|r| r.len())),
    }
    match tablet.capture_consistent_versions(-5, 3) {
        Err(OlapError::MissingVersions(range)) => assert_eq!(range, "[-5,3]"),
        other => panic!("unexpected outcome: {:?}", other.map(|r| r.len())),
    }
}

#[test]
fn tiling_publishes_are_captured_as_a_partition() {
    let mut tablet = Tablet::new(TabletMeta::new(1, 1, orders_schema()));
    let intervals = [(5, 9), (0, 0), (10, 10), (1, 4), (11, 20)];
    for (i, (s, e)) in intervals.iter().enumerate() {
        tablet.add_rowset(RowsetMeta::new(i as u64, 1, 1, Version::new(*s, *e), 1, 1)).unwrap();
    }
    let rowsets = tablet.capture_consistent_versions(0, 20).unwrap();
    let versions: Vec<Version> = rowsets.iter().map(|r| r.version).collect();
    assert_eq!(
        versions,
        vec![
            Version::new(0, 0),
            Version::new(1, 4),
            Version::new(5, 9),
            Version::new(10, 10),
            Version::new(11, 20)
        ]
    );
    for v in 0..=20i64 {
        assert_eq!(versions.iter().filter(|x| x.start <= v && v <= x.end).count(), 1);
    }
}

#[test]
fn duplicate_rowset_ids_are_rejected() {
    let mut tablet = Tablet::new(TabletMeta::new(100, 10, orders_schema()));
    tablet.add_rowset(RowsetMeta::new(1, 100, 10, Version::new(0, 1), 1, 1)).unwrap();
    assert_eq!(
        tablet.add_rowset(RowsetMeta::new(1, 100, 10, Version::new(2, 3), 1, 1)),
        Err(OlapError::VersionExists(Version::new(2, 3)))
    );
    assert_eq!(tablet.max_version(), 1);
    assert!(tablet.capture_consistent_versions(0, 3).is_err());
}

#[test]
fn stale_rowsets_leave_the_graph_and_the_score() {
    let mut tablet = Tablet::new(TabletMeta::new(100, 10, orders_schema()));
    assert_eq!(tablet.compute_compaction_score(CompactionType::Base), 0);
    tablet.add_rowset(RowsetMeta::new(1, 100, 10, Version::new(0, 1), 1, 1)).unwrap();
    tablet.add_rowset(RowsetMeta::new(2, 100, 10, Version::new(2, 3), 1, 1)).unwrap();
    assert_eq!(tablet.compute_compaction_score(CompactionType::Base), 2);
    assert_eq!(tablet.compute_compaction_score(CompactionType::Cumulative), 2);
    tablet.mark_rowset_stale(2);
    assert_eq!(tablet.compute_compaction_score(CompactionType::Cumulative), 1);
    assert!(tablet.capture_consistent_versions(0, 3).is_err());
    assert_eq!(tablet.capture_consistent_versions(0, 1).unwrap().len(), 1);
    tablet.mark_rowset_stale(77);
    assert_eq!(tablet.compute_compaction_score(CompactionType::Cumulative), 1);
    assert_eq!(tablet.max_version(), 3);
}

#[test]
fn tablet_takes_over_the_rowsets_of_its_record() {
    let mut meta = TabletMeta::new(100, 10, orders_schema());
    let mut rs = RowsetMeta::new(4, 100, 10, Version::new(0, 9), 1, 1);
    rs.state = RowsetState::Visible;
    meta.rowsets.insert(4, rs);
    meta.max_version = 9;
    let tablet = Tablet::new(meta);
    assert_eq!(tablet.max_version(), 9);
    assert_eq!(tablet.capture_consistent_versions(0, 9).unwrap()[0].rowset_id, 4);
    assert_eq!(tablet.compute_compaction_score(CompactionType::Base), 1);
}

#[test]
fn registry_finds_created_tablets_until_they_are_dropped() {
    let mut manager = TabletManager::default();
    assert_eq!(manager.tablet_count(), 0);
    let hash = orders_schema().schema_hash;
    manager.create_tablet(TabletMeta::new(100, 10, orders_schema())).unwrap();
    manager.create_tablet(TabletMeta::new(164, 10, orders_schema())).unwrap();
    manager.create_tablet(TabletMeta::new(5, 10, orders_schema())).unwrap();
    assert_eq!(manager.tablet_count(), 3);
    assert_eq!(manager.get_tablet(100, hash).unwrap().tablet_id(), 100);
    assert_eq!(manager.get_tablet(164, hash).unwrap().tablet_id(), 164);
    assert_eq!(manager.get_tablet(100, hash).unwrap().schema_hash(), hash);
    assert!(matches!(manager.get_tablet(100, hash + 1), Err(OlapError::TabletNotFound(100))));
    assert!(matches!(manager.get_tablet(36, hash), Err(OlapError::TabletNotFound(36))));
    assert_eq!(manager.drop_tablet(100, hash), Ok(()));
    assert!(matches!(manager.get_tablet(100, hash), Err(OlapError::TabletNotFound(100))));
    assert_eq!(manager.drop_tablet(100, hash), Err(OlapError::TabletNotFound(100)));
    assert_eq!(manager.tablet_count(), 2);
    assert_eq!(manager.get_tablet(164, hash).unwrap().tablet_id(), 164);
}

#[test]
fn registry_replaces_a_tablet_created_twice() {
    let mut manager = TabletManager::new();
    let hash = orders_schema().schema_hash;
    manager.create_tablet(TabletMeta::new(100, 10, orders_schema())).unwrap();
    manager
        .publish_rowset(100, hash, RowsetMeta::new(1, 100, 10, Version::new(0, 1), 1, 1))
        .unwrap();
    assert_eq!(manager.get_tablet(100, hash).unwrap().max_version(), 1);
    manager.create_tablet(TabletMeta::new(100, 10, orders_schema())).unwrap();
    assert_eq!(manager.tablet_count(), 1);
    assert_eq!(manager.get_tablet(100, hash).unwrap().max_version(), -1);
}

#[test]
fn registry_publishes_and_stales_rowsets_of_its_tablets() {
    let mut manager = TabletManager::new();
    let hash = orders_schema().schema_hash;
    manager.create_tablet(TabletMeta::new(100, 10, orders_schema())).unwrap();
    assert_eq!(
        manager.publish_rowset(7, hash, RowsetMeta::new(1, 7, 10, Version::new(0, 1), 1, 1)),
        Err(OlapError::TabletNotFound(7))
    );
    manager
        .publish_rowset(100, hash, RowsetMeta::new(1, 100, 10, Version::new(0, 1), 1, 1))
        .unwrap();
    assert_eq!(
        manager.publish_rowset(100, hash, RowsetMeta::new(1, 100, 10, Version::new(5, 6), 1, 1)),
        Err(OlapError::VersionExists(Version::new(5, 6)))
    );
    assert_eq!(
        manager.get_tablet(100, hash).unwrap().compute_compaction_score(CompactionType::Base),
        1
    );
    assert_eq!(manager.mark_rowset_stale(100, hash, 1), Ok(()));
    assert_eq!(
        manager.get_tablet(100, hash).unwrap().compute_compaction_score(CompactionType::Base),
        0
    );
    assert_eq!(manager.mark_rowset_stale(9, hash, 1), Err(OlapError::TabletNotFound(9)));
}

#[test]
fn candidates_come_in_order_of_descending_score() {
    let mut manager = TabletManager::new();
    let hash = orders_schema().schema_hash;
    for id in [1u64, 2, 3, 65] {
        manager.create_tablet(TabletMeta::new(id, 10, orders_schema())).unwrap();
    }
    for (id, count) in [(1u64, 2i64), (3, 5), (65, 1)] {
        for v in 0..count {
            manager
                .publish_rowset(id, hash, RowsetMeta::new(v as u64, id, 10, Version::point(v), 1, 1))
                .unwrap();
        }
    }
    let candidates = manager.collect_compaction_candidates(CompactionType::Cumulative);
    assert_eq!(candidates, vec![(3, hash, 5), (1, hash, 2), (65, hash, 1), (2, hash, 0)]);
    assert_eq!(score_order(&(1, 1, 5), &(2, 2, 3)), Ordering::Less);
    assert_eq!(score_order(&(1, 1, 3), &(2, 2, 3)), Ordering::Equal);
    assert_eq!(score_order(&(1, 1, 1), &(2, 2, 3)), Ordering::Greater);
}

#[test]
fn catalog_keeps_tables_by_database() {
    let mut catalog = CatalogManager::default();
    assert!(matches!(catalog.get_table(1, 1000), Err(OlapError::DatabaseNotFound(1))));
    assert!(matches!(
        catalog.add_table(1, OlapTable::new(1000, "orders", orders_schema(), orders_partitions())),
        Err(OlapError::DatabaseNotFound(1))
    ));
    assert_eq!(catalog.create_database(1, "ecommerce"), Ok(()));
    assert!(matches!(catalog.get_table(1, 1000), Err(OlapError::TableNotFound(1, 1000))));
    assert!(catalog
        .add_table(1, OlapTable::new(1000, "orders", orders_schema(), orders_partitions()))
        .is_ok());
    assert_eq!(catalog.get_table(1, 1000).unwrap().table_name, "orders");
    assert_eq!(catalog.drop_table(1, 7), Err(OlapError::TableNotFound(1, 7)));
    assert_eq!(catalog.drop_table(2, 1000), Err(OlapError::DatabaseNotFound(2)));
    assert_eq!(catalog.drop_table(1, 1000), Ok(()));
    assert!(matches!(catalog.get_table(1, 1000), Err(OlapError::TableNotFound(1, 1000))));
    assert!(CatalogManager::new().get_table(1, 1).is_err());
}

#[test]
fn creating_a_database_again_empties_it() {
    let mut catalog = CatalogManager::new();
    catalog.create_database(1, "a").unwrap();
    catalog.add_table(1, OlapTable::new(5, "t", orders_schema(), orders_partitions())).unwrap();
    catalog.create_database(1, "b").unwrap();
    assert!(matches!(catalog.get_table(1, 5), Err(OlapError::TableNotFound(1, 5))));
}

fn orders_engine() -> StorageEngine {
    let mut engine = StorageEngine::new_single_dir("/tmp/olap-data");
    engine.create_database(1, "ecommerce").unwrap();
    let schema = orders_schema();
    let specs = vec![
        PartitionSpec { partition_id: 10, tablet_ids: vec![100, 101, 102, 103], schema_hash: schema.schema_hash },
        PartitionSpec { partition_id: 11, tablet_ids: vec![200, 201, 202, 203], schema_hash: schema.schema_hash },
    ];
    engine
        .create_table_with_partitions(1, 1000, "orders", schema, orders_partitions(), specs, 1)
        .unwrap();
    engine
}

#[test]
fn engine_creates_one_tablet_per_partition_and_bucket() {
    let engine = orders_engine();
    assert_eq!(engine.data_dir, "/tmp/olap-data");
    assert_eq!(engine.tablet_count(), 8);
    let hash = orders_schema().schema_hash;
    for id in [100u64, 101, 102, 103, 200, 201, 202, 203] {
        assert_eq!(engine.get_tablet(id, hash).unwrap().tablet_id(), id);
    }
    let table = engine.catalog_manager.get_table(1, 1000).unwrap();
    let tablet = table.tablet_for_row("2024-09-20", "2002001").unwrap();
    assert!([200u64, 201, 202, 203].contains(&tablet));
}

#[test]
fn engine_registers_tablets_even_without_the_database() {
    let mut engine = StorageEngine::new_single_dir("d");
    let schema = orders_schema();
    let specs = vec![PartitionSpec { partition_id: 10, tablet_ids: vec![1, 2], schema_hash: 0 }];
    assert_eq!(
        engine.create_table_with_partitions(9, 1, "t", schema, orders_partitions(), specs, 1),
        Err(OlapError::DatabaseNotFound(9))
    );
    assert_eq!(engine.tablet_count(), 2);
}

#[test]
fn engine_publishes_rowsets_and_captures_them() {
    let mut engine = orders_engine();
    let hash = orders_schema().schema_hash;
    engine.publish_rowset(100, hash, RowsetMeta::new(1, 100, 10, Version::new(0, 1), 2000, 1)).unwrap();
    engine.publish_rowset(100, hash, RowsetMeta::new(2, 100, 10, Version::new(2, 3), 500, 50_000)).unwrap();
    let tablet = engine.get_tablet(100, hash).unwrap();
    let ids: Vec<u64> =
        tablet.capture_consistent_versions(0, 3).unwrap().iter().map(|r| r.rowset_id).collect();
    assert_eq!(ids, vec![1, 2]);
    assert_eq!(tablet.max_version(), 3);
    assert!(matches!(
        tablet.capture_consistent_versions(0, 100),
        Err(OlapError::MissingVersions(_))
    ));
    assert_eq!(
        engine.publish_rowset(999, hash, RowsetMeta::new(1, 999, 10, Version::new(0, 1), 1, 1)),
        Err(OlapError::TabletNotFound(999))
    );
}

#[test]
fn compaction_takes_the_busiest_tablets_first() {
    let mut engine = orders_engine();
    let hash = orders_schema().schema_hash;
    for i in 0..7i64 {
        engine
            .publish_rowset(100, hash, RowsetMeta::new(i as u64, 100, 10, Version::new(2 * i, 2 * i + 1), 100, 10_000))
            .unwrap();
    }
    let ids = engine.schedule_compaction(CompactionType::Cumulative);
    assert_eq!(ids.len(), 8);
    assert_eq!(ids[0], 100);
    let first = ids.iter().position(|id| *id == 100).unwrap();
    let second = ids.iter().position(|id| *id == 101).unwrap();
    assert!(first < second);
}

#[test]
fn compaction_takes_at_most_ten_tablets() {
    let mut engine = StorageEngine::new_single_dir("d");
    for id in 0..25u64 {
        engine.create_tablet(TabletMeta::new(id, 1, orders_schema())).unwrap();
    }
    let hash = orders_schema().schema_hash;
    engine.publish_rowset(17, hash, RowsetMeta::new(1, 17, 1, Version::point(0), 1, 1)).unwrap();
    let ids = engine.schedule_compaction(CompactionType::Base);
    assert_eq!(ids.len(), 10);
    assert_eq!(ids[0], 17);
    assert_eq!(engine.drop_tablet(17, hash), Ok(()));
    assert_eq!(engine.drop_tablet(17, hash), Err(OlapError::TabletNotFound(17)));
    assert_eq!(engine.tablet_count(), 24);
}

#[test]
fn segment_paths_lie_under_the_data_directory() {
    let engine = StorageEngine::new_single_dir("/tmp/olap-data");
    assert_eq!(engine.segment_path(100, 1, 0), "/tmp/olap-data/100/1_0.seg");
    assert_eq!(engine.segment_path(0, u64::MAX, 12), "/tmp/olap-data/0/18446744073709551615_12.seg");
}
