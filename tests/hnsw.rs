use hnsw_index::config::{HnswIndexConfig, HnswIndexConfigError, DEFAULT_MAX_ELEMENTS};
use hnsw_index::errors::{HnswError, HnswIndexInitError};
use hnsw_index::index::{DistanceFunction, HnswIndex, IndexConfig};

const EPS: f32 = 0.00001;

/// Deterministic pseudo-random components in [0, 1).
fn generate_random_data(n: usize, d: usize, seed: u64) -> Vec<f32> {
    let mut state = seed.wrapping_mul(6364136223846793005).wrapping_add(1442695040888963407);
    let mut out = Vec::with_capacity(n * d);
    for _ in 0..n * d {
        state ^= state << 13;
        state ^= state >> 7;
        state ^= state << 17;
        out.push((state >> 40) as f32 / (1u64 << 24) as f32);
    }
    out
}

fn bits(v: &[f32]) -> Vec<u32> {
    v.iter().map(|x| x.to_bits()).collect()
}

/// Squared Euclidean distance, as the bits of a non-negative binary32 value,
/// whose order as integers is the order of the values.
fn l2(a: &[u32], b: &[u32]) -> u32 {
    let mut sum = 0.0f32;
    for i in 0..a.len() {
        let d = f32::from_bits(a[i]) - f32::from_bits(b[i]);
        sum += d * d;
    }
    sum.to_bits()
}

fn new_index(n: usize, d: usize, m: usize, ef_search: usize, df: DistanceFunction) -> HnswIndex {
    let index = HnswIndex::init(
        &IndexConfig { dimensionality: d as i32, distance_function: df },
        Some(&HnswIndexConfig {
            max_elements: n,
            m,
            ef_construction: 100,
            ef_search,
            random_seed: 0,
            persist_path: Some("/tmp/index".to_string()),
        }),
        7,
    );
    match index {
        Err(e) => panic!("Error initializing index: {:?}", e),
        Ok(index) => index,
    }
}

fn fill(index: &mut HnswIndex, data: &[f32], d: usize, from: usize, to: usize) {
    for i in from..to {
        index.add(i, &bits(&data[i * d..(i + 1) * d])).expect("Should not error");
    }
}

fn index_data_same(index: &HnswIndex, ids: &[usize], data: &[f32], dim: usize) {
    for (i, id) in ids.iter().enumerate() {
        match index.get(*id) {
            Ok(Some(actual)) => {
                assert_eq!(actual.len(), dim);
                for j in 0..dim {
                    assert!((f32::from_bits(actual[j]) - data[i * dim + j]).abs() < EPS);
                }
            }
            Ok(None) => panic!("No data found for id: {}", id),
            Err(_) => panic!("Did not expect error"),
        }
    }
}

#[test]
fn it_initializes_and_can_set_get_ef() {
    let mut index = new_index(1000, 960, 16, 10, DistanceFunction::Euclidean);
    assert_eq!(index.get_ef().unwrap(), 10);
    index.set_ef(100).expect("Should not error");
    assert_eq!(index.get_ef().unwrap(), 100);
}

#[test]
fn it_can_add_parallel() {
    let (n, d) = (100, 960);
    let mut index = new_index(n, d, 16, 100, DistanceFunction::InnerProduct);
    let data = generate_random_data(n, d, 1);
    fill(&mut index, &data, d, 0, n);
    assert_eq!(index.len(), n);
    let ids: Vec<usize> = (0..n).collect();
    index_data_same(&index, &ids, &data, d);
}

#[test]
fn it_can_add_and_basic_query() {
    let (n, d) = (1, 960);
    let mut index = new_index(n, d, 16, 100, DistanceFunction::Euclidean);
    assert_eq!(index.get_ef().unwrap(), 100);
    let data = generate_random_data(n, d, 2);
    fill(&mut index, &data, d, 0, n);
    assert_eq!(index.len(), n);
    let ids: Vec<usize> = (0..n).collect();
    index_data_same(&index, &ids, &data, d);
    let query = bits(&data[0..d]);
    let (ids, distances) = index.query(&query, 1, &[], &[], l2).unwrap();
    assert_eq!(ids.len(), 1);
    assert_eq!(distances.len(), 1);
    assert_eq!(ids[0], 0);
    assert_eq!(f32::from_bits(distances[0]), 0.0);
}

#[test]
fn it_can_add_and_delete() {
    let (n, d) = (1000, 960);
    let mut index = new_index(n, d, 16, 100, DistanceFunction::Euclidean);
    let data = generate_random_data(n, d, 3);
    fill(&mut index, &data, d, 0, n);
    assert_eq!(index.len(), n);
    let delete_ids: Vec<usize> = (0..n / 20).map(|i| (i * 37 + 11) % n).collect();
    for id in &delete_ids {
        index.delete(*id).expect("Should not error");
    }
    assert_eq!(index.len(), n - delete_ids.len());
    for deleted_id in &delete_ids {
        let target = bits(&data[*deleted_id * d..(*deleted_id + 1) * d]);
        let (ids, _) = index.query(&target, 10, &[], &[], l2).unwrap();
        for check_deleted_id in &delete_ids {
            assert!(!ids.contains(check_deleted_id));
        }
    }
}

#[test]
fn it_can_add_and_query_with_allowed_and_disallowed_ids() {
    let (n, d) = (1000, 960);
    let mut index = new_index(n, d, 16, 100, DistanceFunction::Euclidean);
    let data = generate_random_data(n, d, 5);
    fill(&mut index, &data, d, 0, n);
    let query = bits(&data[0..d]);
    let (ids, distances) = index.query(&query, 10, &[0, 2], &[3], l2).unwrap();
    assert_eq!(ids.len(), 2);
    assert_eq!(distances.len(), 2);
    assert!(ids.iter().all(|id| *id == 0 || *id == 2));
}

#[test]
fn it_can_resize() {
    let (n, d) = (1000, 960);
    let mut index = new_index(n, d, 16, 100, DistanceFunction::Euclidean);
    let data = generate_random_data(2 * n, d, 6);
    fill(&mut index, &data, d, 0, n);
    assert_eq!(index.capacity(), n);
    index.resize(2 * n).expect("Should not error");
    assert_eq!(index.len(), n);
    assert_eq!(index.capacity(), 2 * n);
    fill(&mut index, &data, d, n, 2 * n);
}

#[test]
fn it_can_catch_error() {
    let (n, d) = (10, 960);
    let mut index = new_index(n, d, 10, 100, DistanceFunction::Euclidean);
    let data = generate_random_data(n, d, 7);
    fill(&mut index, &data, d, 0, n);
    let res = index.add(n, &bits(&data[0..d]));
    match res {
        Err(_) => {}
        Ok(_) => panic!("Expected error"),
    }
}

#[test]
fn it_can_resize_correctly() {
    let (n, d) = (10, 960);
    let mut index = new_index(n, d, 32, 100, DistanceFunction::Euclidean);
    let data = generate_random_data(n, d, 8);
    fill(&mut index, &data, d, 0, n);
    index.delete(0).unwrap();
    let data = bits(&data[d..2 * d]);
    let index_len = index.len_with_deleted();
    let index_capacity = index.capacity();
    if index_len + 1 > index_capacity {
        index.resize(index_capacity * 2).unwrap();
    }
    index.add(100, &data).unwrap();
}

#[test]
fn it_can_persist_and_load() {
    let (n, d) = (1000, 960);
    let mut index = new_index(n, d, 32, 100, DistanceFunction::Euclidean);
    let data = generate_random_data(n, d, 4);
    fill(&mut index, &data, d, 0, n);
    let saved = index.to_bytes();
    let config = IndexConfig { dimensionality: d as i32, distance_function: DistanceFunction::Euclidean };
    let index = match HnswIndex::from_bytes(&saved, &config, 7, Some("/tmp/index".to_string())) {
        Err(e) => panic!("Error loading index: {:?}", e),
        Ok(index) => index,
    };
    let mut index = index;
    index.set_ef(100).expect("Should not error");
    assert_eq!(index.id, 7);
    let query = bits(&data[0..d]);
    let (ids, distances) = index.query(&query, 1, &[], &[], l2).unwrap();
    assert_eq!(ids.len(), 1);
    assert_eq!(distances.len(), 1);
    assert_eq!(ids[0], 0);
    assert_eq!(f32::from_bits(distances[0]), 0.0);
    let all: Vec<usize> = (0..n).collect();
    index_data_same(&index, &all, &data, d);
}

#[test]
fn it_can_detect_corruption() {
    let (n, d) = (1000, 960);
    let mut index = new_index(n, d, 32, 100, DistanceFunction::Euclidean);
    let data = generate_random_data(n, d, 9);
    fill(&mut index, &data, d, 0, n);
    let mut saved = index.to_bytes();
    // The deletion byte of the first slot record.
    saved[80 + 8] = 0xff;
    let config = IndexConfig { dimensionality: d as i32, distance_function: DistanceFunction::Euclidean };
    let loaded = HnswIndex::from_bytes(&saved, &config, 7, None);
    assert!(loaded.is_err());
    match loaded.map(|_| ()).unwrap_err() {
        HnswError::IntegrityFailure(msg) => assert!(msg.contains("HNSW Integrity failure")),
        other => panic!("unexpected error {:?}", other),
    }
}
