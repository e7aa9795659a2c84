use mtg::distance::{euclidean_distance, floor_sqrt, squared_distance};
use mtg::error::{CoreError, Invalid};
use mtg::vectors::{Neighbor, VectorStore};

fn rows_of(store: &VectorStore) -> Vec<(i64, Vec<i32>)> {
    store.all().into_iter().map(|p| (p.rowid, p.embedding)).collect()
}

#[test]
fn squared_distance_exact() {
    assert_eq!(squared_distance(&[0, 0], &[3, 4]), 25);
    assert_eq!(squared_distance(&[1, -2, 3], &[1, -2, 3]), 0);
    assert_eq!(squared_distance(&[i32::MIN], &[i32::MAX]), (u32::MAX as u128) * (u32::MAX as u128));
}

#[test]
fn euclidean_distance_rounds_down() {
    assert_eq!(euclidean_distance(&[0, 0], &[3, 4]), 5);
    assert_eq!(euclidean_distance(&[0, 0], &[1, 1]), 1);
    assert_eq!(euclidean_distance(&[5], &[5]), 0);
    assert_eq!(floor_sqrt(u128::MAX), u64::MAX);
    assert_eq!(floor_sqrt(99), 9);
    assert_eq!(floor_sqrt(100), 10);
}

#[test]
fn put_with_wrong_length_is_refused_and_store_unchanged() {
    let mut store = VectorStore::new(2);
    store.put(1, vec![1, 0]).unwrap();
    let before = rows_of(&store);
    let r = store.put(2, vec![1, 2, 3]);
    assert_eq!(r, Err(CoreError::Validation(Invalid::Dimension { expected: 2, found: 3 })));
    assert_eq!(rows_of(&store), before);
    assert_eq!(store.len(), 1);
}

#[test]
fn put_replaces_vector_under_same_rowid() {
    let mut store = VectorStore::new(2);
    store.put(7, vec![1, 1]).unwrap();
    store.put(8, vec![2, 2]).unwrap();
    store.put(7, vec![3, 3]).unwrap();
    assert_eq!(rows_of(&store), vec![(7, vec![3, 3]), (8, vec![2, 2])]);
}

#[test]
fn nearest_neighbors_orders_by_distance_then_rowid() {
    let mut store = VectorStore::new(2);
    store.put(5, vec![2, 0]).unwrap();
    store.put(3, vec![0, 2]).unwrap();
    store.put(9, vec![1, 0]).unwrap();
    store.put(1, vec![10, 10]).unwrap();
    let r = store.nearest_neighbors(&[0, 0], 3).unwrap();
    assert_eq!(
        r,
        vec![
            Neighbor { rowid: 9, sq_distance: 1 },
            Neighbor { rowid: 3, sq_distance: 4 },
            Neighbor { rowid: 5, sq_distance: 4 },
        ]
    );
}

#[test]
fn nearest_neighbors_exact_match_first_at_zero() {
    let mut store = VectorStore::new(3);
    store.put(1, vec![1, 2, 3]).unwrap();
    store.put(2, vec![4, 5, 6]).unwrap();
    store.put(3, vec![-1, 0, 7]).unwrap();
    let r = store.nearest_neighbors(&[4, 5, 6], 2).unwrap();
    assert!(r.len() <= 2);
    assert_eq!(r[0], Neighbor { rowid: 2, sq_distance: 0 });
    assert!(r.windows(2).all(|w| w[0].sq_distance <= w[1].sq_distance));
}

#[test]
fn nearest_neighbors_returns_all_when_fewer_than_k() {
    let mut store = VectorStore::new(1);
    store.put(1, vec![3]).unwrap();
    store.put(2, vec![-1]).unwrap();
    let r = store.nearest_neighbors(&[0], 10).unwrap();
    assert_eq!(r, vec![Neighbor { rowid: 2, sq_distance: 1 }, Neighbor { rowid: 1, sq_distance: 9 }]);
}

#[test]
fn nearest_neighbors_on_empty_store_is_empty() {
    let store = VectorStore::new(4);
    assert_eq!(store.nearest_neighbors(&[0, 0, 0, 0], 3).unwrap(), vec![]);
}

#[test]
fn nearest_neighbors_rejects_zero_k_and_bad_query() {
    let mut store = VectorStore::new(2);
    store.put(1, vec![0, 0]).unwrap();
    assert_eq!(store.nearest_neighbors(&[0, 0], 0), Err(CoreError::Validation(Invalid::ZeroK)));
    assert_eq!(
        store.nearest_neighbors(&[0], 1),
        Err(CoreError::Validation(Invalid::Dimension { expected: 2, found: 1 }))
    );
}
