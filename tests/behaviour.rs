use hnsw_index::config::{HnswIndexConfig, HnswIndexConfigError, DEFAULT_MAX_ELEMENTS};
use hnsw_index::errors::{HnswError, HnswIndexInitError};
use hnsw_index::index::{DistanceFunction, HnswIndex, IndexConfig};

/// Distance on one-component vectors: the absolute difference of the raw
/// values.
fn gap(a: &[u32], b: &[u32]) -> u32 {
    if a[0] > b[0] {
        a[0] - b[0]
    } else {
        b[0] - a[0]
    }
}

fn small(capacity: usize) -> HnswIndex {
    let mut config = HnswIndexConfig::new_ephemeral(16, 100, 10);
    config.max_elements = capacity;
    HnswIndex::init(
        &IndexConfig { dimensionality: 1, distance_function: DistanceFunction::Euclidean },
        Some(&config),
        1,
    )
    .unwrap()
}

#[test]
fn ephemeral_config_defaults() {
    let c = HnswIndexConfig::new_ephemeral(16, 100, 10);
    assert_eq!(c.max_elements, DEFAULT_MAX_ELEMENTS);
    assert_eq!((c.m, c.ef_construction, c.ef_search, c.random_seed), (16, 100, 10, 0));
    assert!(c.persist_path.is_none());
}

#[test]
fn persistent_config_keeps_path() {
    let c = HnswIndexConfig::new_persistent(8, 50, 20, std::path::Path::new("/tmp/x")).unwrap();
    assert_eq!(c.persist_path, Some("/tmp/x".to_string()));
    assert_eq!(c.max_elements, DEFAULT_MAX_ELEMENTS);
    assert_eq!(c.m, 8);
}

#[test]
fn missing_path_is_reported() {
    let e = HnswIndexConfig::from_path_str(8, 50, 20, None).unwrap_err();
    assert_eq!(*e, HnswIndexConfigError::MissingConfig("persist_path".to_string()));
}

#[test]
fn init_without_config_fails() {
    let r = HnswIndex::init(
        &IndexConfig { dimensionality: 4, distance_function: DistanceFunction::Cosine },
        None,
        1,
    );
    assert_eq!(r.err(), Some(HnswIndexInitError::NoConfigProvided));
}

#[test]
fn init_with_bad_dimensionality_fails() {
    let c = HnswIndexConfig::new_ephemeral(16, 100, 10);
    let r = HnswIndex::init(
        &IndexConfig { dimensionality: 0, distance_function: DistanceFunction::Cosine },
        Some(&c),
        1,
    );
    assert_eq!(r.err(), Some(HnswIndexInitError::InvalidDimensionality(0)));
}

#[test]
fn fresh_index_is_empty() {
    let ix = small(4);
    assert!(ix.is_empty());
    assert_eq!(ix.len(), 0);
    assert_eq!(ix.len_with_deleted(), 0);
    assert_eq!(ix.dimensionality(), 1);
    assert_eq!(ix.capacity(), 4);
}

#[test]
fn adds_count_live_and_allocated() {
    let mut ix = small(8);
    for i in 0..5 {
        ix.add(i, &[i as u32]).unwrap();
        assert_eq!(ix.len(), i + 1);
        assert_eq!(ix.len_with_deleted(), i + 1);
    }
}

#[test]
fn dimension_mismatch_is_rejected() {
    let mut ix = small(4);
    assert_eq!(
        ix.add(1, &[1, 2]),
        Err(HnswError::DimensionMismatch { expected: 1, actual: 2 })
    );
    assert_eq!(
        ix.query(&[], 1, &[], &[], gap).err(),
        Some(HnswError::DimensionMismatch { expected: 1, actual: 0 })
    );
    assert!(ix.is_empty());
}

#[test]
fn duplicate_label_is_rejected() {
    let mut ix = small(4);
    ix.add(3, &[30]).unwrap();
    assert_eq!(ix.add(3, &[31]), Err(HnswError::DuplicateLabel(3)));
    assert_eq!(ix.get(3).unwrap(), Some(vec![30]));
}

#[test]
fn unknown_label_delete_and_get() {
    let mut ix = small(4);
    assert_eq!(ix.delete(9), Err(HnswError::UnknownLabel(9)));
    assert_eq!(ix.get(9).unwrap(), None);
    ix.add(9, &[1]).unwrap();
    ix.delete(9).unwrap();
    assert_eq!(ix.delete(9), Err(HnswError::UnknownLabel(9)));
    assert_eq!(ix.get(9).unwrap(), None);
}

#[test]
fn capacity_error_then_resize() {
    let mut ix = small(10);
    for i in 0..10 {
        ix.add(i, &[i as u32]).unwrap();
    }
    assert_eq!(ix.add(10, &[10]), Err(HnswError::CapacityExceeded(10)));
    ix.resize(20).unwrap();
    ix.add(10, &[10]).unwrap();
    assert_eq!(ix.len(), 11);
    assert_eq!(ix.capacity(), 20);
}

#[test]
fn resize_never_shrinks() {
    let mut ix = small(10);
    ix.resize(3).unwrap();
    assert_eq!(ix.capacity(), 10);
}

#[test]
fn full_index_reuses_oldest_deleted_slot() {
    let mut ix = small(3);
    for i in 0..3 {
        ix.add(i, &[i as u32 * 10]).unwrap();
    }
    ix.delete(1).unwrap();
    ix.delete(0).unwrap();
    assert_eq!(ix.len(), 1);
    assert_eq!(ix.len_with_deleted(), 3);
    assert_eq!(ix.get_all_ids_sizes().unwrap(), vec![1, 2]);
    ix.add(7, &[70]).unwrap();
    assert_eq!(ix.len_with_deleted(), 3);
    let (live, gone) = ix.get_all_ids().unwrap();
    assert_eq!(live, vec![7, 2]);
    assert_eq!(gone, vec![0]);
    assert_eq!(ix.get(7).unwrap(), Some(vec![70]));
}

#[test]
fn query_orders_by_distance_then_label() {
    let mut ix = small(8);
    ix.add(5, &[10]).unwrap();
    ix.add(1, &[14]).unwrap();
    ix.add(2, &[6]).unwrap();
    ix.add(9, &[11]).unwrap();
    let (ids, ds) = ix.query(&[10], 3, &[], &[], gap).unwrap();
    assert_eq!(ids, vec![5, 9, 1]);
    assert_eq!(ds, vec![0, 1, 4]);
    let (ids, ds) = ix.query(&[10], 10, &[], &[], gap).unwrap();
    assert_eq!(ids, vec![5, 9, 1, 2]);
    assert_eq!(ds, vec![0, 1, 4, 4]);
}

#[test]
fn query_with_zero_k_or_empty_index() {
    let mut ix = small(8);
    assert_eq!(ix.query(&[1], 3, &[], &[], gap).unwrap(), (vec![], vec![]));
    ix.add(1, &[1]).unwrap();
    assert_eq!(ix.query(&[1], 0, &[], &[], gap).unwrap(), (vec![], vec![]));
}

#[test]
fn query_filters() {
    let mut ix = small(8);
    for i in 0..6 {
        ix.add(i, &[i as u32]).unwrap();
    }
    let (ids, _) = ix.query(&[0], 10, &[0, 2], &[3], gap).unwrap();
    assert_eq!(ids, vec![0, 2]);
    let (ids, _) = ix.query(&[0], 10, &[], &[0, 1], gap).unwrap();
    assert_eq!(ids, vec![2, 3, 4, 5]);
    let (ids, _) = ix.query(&[0], 10, &[2, 3], &[3], gap).unwrap();
    assert_eq!(ids, vec![2]);
}

#[test]
fn deleted_label_is_never_returned() {
    let mut ix = small(8);
    for i in 0..4 {
        ix.add(i, &[i as u32]).unwrap();
    }
    ix.delete(0).unwrap();
    let (ids, _) = ix.query(&[0], 10, &[0, 1], &[], gap).unwrap();
    assert_eq!(ids, vec![1]);
}

#[test]
fn resize_keeps_gets_and_queries() {
    let mut ix = small(4);
    for i in 0..4 {
        ix.add(i, &[i as u32 * 3]).unwrap();
    }
    let before = ix.query(&[4], 2, &[], &[], gap).unwrap();
    ix.resize(100).unwrap();
    assert_eq!(ix.len(), 4);
    assert_eq!(ix.query(&[4], 2, &[], &[], gap).unwrap(), before);
    for i in 0..4 {
        assert_eq!(ix.get(i).unwrap(), Some(vec![i as u32 * 3]));
    }
}

fn integrity_message(r: Result<HnswIndex, HnswError>) -> String {
    match r {
        Err(HnswError::IntegrityFailure(msg)) => msg,
        Err(e) => panic!("unexpected error {:?}", e),
        Ok(_) => panic!("expected an integrity failure"),
    }
}

fn one_dim() -> IndexConfig {
    IndexConfig { dimensionality: 1, distance_function: DistanceFunction::Euclidean }
}

#[test]
fn empty_index_encoding_is_exact() {
    let ix = small(4);
    let bytes = ix.to_bytes();
    let mut expected = Vec::new();
    for w in [0x484e_5357_494e_4458u64, 1, 1, 4, 0, 0, 10, 16, 100, 0] {
        expected.extend_from_slice(&w.to_le_bytes());
    }
    assert_eq!(bytes, expected);
}

#[test]
fn slot_record_encoding_is_exact() {
    let mut ix = small(4);
    ix.add(0x0102, &[0xaabbccdd]).unwrap();
    ix.delete(0x0102).unwrap();
    let bytes = ix.to_bytes();
    assert_eq!(bytes.len(), 80 + 13 + 8);
    assert_eq!(&bytes[80..88], &0x0102u64.to_le_bytes());
    assert_eq!(bytes[88], 1);
    assert_eq!(&bytes[89..93], &[0xdd, 0xcc, 0xbb, 0xaa]);
    assert_eq!(&bytes[93..101], &0u64.to_le_bytes());
}

#[test]
fn round_trip_keeps_deletions_and_queries() {
    let mut ix = small(5);
    for i in 0..5 {
        ix.add(i, &[i as u32 * 2]).unwrap();
    }
    ix.delete(3).unwrap();
    ix.delete(1).unwrap();
    let back = HnswIndex::from_bytes(&ix.to_bytes(), &one_dim(), 2, None).unwrap();
    assert_eq!(back.len(), 3);
    assert_eq!(back.len_with_deleted(), 5);
    assert_eq!(back.capacity(), 5);
    assert_eq!(back.get_ef().unwrap(), 10);
    assert_eq!(back.get_all_ids().unwrap(), ix.get_all_ids().unwrap());
    assert_eq!(
        back.query(&[5], 3, &[], &[], gap).unwrap(),
        ix.query(&[5], 3, &[], &[], gap).unwrap()
    );
    assert_eq!(back.to_bytes(), ix.to_bytes());
    // The oldest deletion is reused first after loading too.
    let mut back = back;
    back.add(9, &[1]).unwrap();
    assert_eq!(back.get_all_ids().unwrap(), (vec![0, 2, 9, 4], vec![1]));
}

#[test]
fn load_rejects_wrong_dimensionality() {
    let ix = small(2);
    let cfg = IndexConfig { dimensionality: 2, distance_function: DistanceFunction::Euclidean };
    let msg = integrity_message(HnswIndex::from_bytes(&ix.to_bytes(), &cfg, 1, None));
    assert!(msg.contains("dimensionality"));
}

#[test]
fn load_rejects_truncated_and_bad_magic() {
    let ix = small(2);
    let bytes = ix.to_bytes();
    assert!(integrity_message(HnswIndex::from_bytes(&bytes[..40], &one_dim(), 1, None)).contains("truncated"));
    let mut bad = bytes.clone();
    bad[0] ^= 1;
    assert!(integrity_message(HnswIndex::from_bytes(&bad, &one_dim(), 1, None)).contains("format"));
    let mut long = bytes.clone();
    long.push(0);
    assert!(integrity_message(HnswIndex::from_bytes(&long, &one_dim(), 1, None)).contains("length"));
}

#[test]
fn load_rejects_inconsistent_maps() {
    let mut ix = small(4);
    ix.add(1, &[1]).unwrap();
    ix.add(2, &[2]).unwrap();
    // Give the second slot the first slot's label.
    let mut dup = ix.to_bytes();
    dup[80 + 13] = 1;
    assert!(integrity_message(HnswIndex::from_bytes(&dup, &one_dim(), 1, None)).contains("inconsistent"));
    // Mark a slot deleted without listing it.
    let mut unlisted = ix.to_bytes();
    unlisted[80 + 8] = 1;
    assert!(integrity_message(HnswIndex::from_bytes(&unlisted, &one_dim(), 1, None)).contains("inconsistent"));
}

#[test]
fn load_rejects_out_of_range_deleted_slot() {
    let mut ix = small(4);
    ix.add(1, &[1]).unwrap();
    ix.delete(1).unwrap();
    let mut bytes = ix.to_bytes();
    let last = bytes.len() - 8;
    bytes[last] = 5;
    assert!(integrity_message(HnswIndex::from_bytes(&bytes, &one_dim(), 1, None)).contains("out of range"));
}

#[test]
fn readding_a_deleted_label_revives_its_slot() {
    let mut ix = small(4);
    ix.add(1, &[10]).unwrap();
    ix.add(2, &[20]).unwrap();
    ix.delete(1).unwrap();
    ix.add(1, &[11]).unwrap();
    assert_eq!(ix.len(), 2);
    assert_eq!(ix.len_with_deleted(), 2);
    assert_eq!(ix.get_all_ids().unwrap(), (vec![1, 2], vec![]));
    assert_eq!(ix.get(1).unwrap(), Some(vec![11]));
    ix.delete(1).unwrap();
    ix.add(1, &[12]).unwrap();
    ix.delete(1).unwrap();
    assert_eq!(ix.get_all_ids().unwrap(), (vec![2], vec![1]));
}

#[test]
fn readding_a_deleted_label_needs_no_room() {
    let mut ix = small(2);
    ix.add(1, &[10]).unwrap();
    ix.add(2, &[20]).unwrap();
    ix.delete(2).unwrap();
    ix.add(2, &[21]).unwrap();
    assert_eq!(ix.add(3, &[30]), Err(HnswError::CapacityExceeded(2)));
    assert_eq!(ix.get_all_ids_sizes().unwrap(), vec![2, 0]);
}

#[test]
fn load_rejects_other_distance_function() {
    let ix = small(2);
    let cfg = IndexConfig { dimensionality: 1, distance_function: DistanceFunction::Cosine };
    let msg = integrity_message(HnswIndex::from_bytes(&ix.to_bytes(), &cfg, 1, None));
    assert!(msg.contains("distance function"));
}

#[test]
fn distance_function_is_kept_and_fd_calls_change_nothing() {
    let c = HnswIndexConfig::new_ephemeral(16, 100, 10);
    let ix = HnswIndex::init(
        &IndexConfig { dimensionality: 2, distance_function: DistanceFunction::InnerProduct },
        Some(&c),
        1,
    )
    .unwrap();
    assert_eq!(ix.distance_function(), DistanceFunction::InnerProduct);
    let bytes = ix.to_bytes();
    assert_eq!(&bytes[72..80], &1u64.to_le_bytes());
    ix.open_fd();
    ix.close_fd();
    assert_eq!(ix.to_bytes(), bytes);
    let back = HnswIndex::from_bytes(
        &bytes,
        &IndexConfig { dimensionality: 2, distance_function: DistanceFunction::InnerProduct },
        1,
        None,
    )
    .unwrap();
    assert_eq!(back.distance_function(), DistanceFunction::InnerProduct);
}

#[test]
fn init_with_nul_in_path_fails() {
    let mut c = HnswIndexConfig::new_ephemeral(16, 100, 10);
    c.persist_path = Some("a\0b".to_string());
    let r = HnswIndex::init(
        &IndexConfig { dimensionality: 1, distance_function: DistanceFunction::Euclidean },
        Some(&c),
        1,
    );
    assert_eq!(r.err(), Some(HnswIndexInitError::InvalidPath("a\0b".to_string())));
}

#[test]
fn init_and_load_keep_the_id() {
    let mut c = HnswIndexConfig::new_ephemeral(16, 100, 10);
    c.persist_path = Some("/tmp/ix".to_string());
    let ix = HnswIndex::init(
        &IndexConfig { dimensionality: 1, distance_function: DistanceFunction::Euclidean },
        Some(&c),
        42,
    )
    .unwrap();
    assert_eq!(ix.id, 42);
    let back = HnswIndex::from_bytes(&ix.to_bytes(), &one_dim(), 43, None).unwrap();
    assert_eq!(back.id, 43);
}
