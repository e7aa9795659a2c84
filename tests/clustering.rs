use mtg::catalog::{Card, CatalogStore};
use mtg::clusters::{cluster, insert_cluster_assignments, AssignmentLog};
use mtg::error::{CoreError, Invalid};
use mtg::kmeans::{k_means, k_means_from, k_means_seeded};
use mtg::vectors::{Point, VectorStore};

fn pts(vs: &[&[i32]]) -> Vec<Point> {
    vs.iter()
        .enumerate()
        .map(|(i, v)| Point { rowid: i as i64 + 1, embedding: v.to_vec() })
        .collect()
}

#[test]
fn single_cluster_converges_to_mean() {
    let points = pts(&[&[0, 0], &[4, 2], &[8, 7]]);
    for max_iterations in [1usize, 2, 10] {
        for seed in 0..5u64 {
            let c = k_means_seeded(&points, 1, max_iterations, seed).unwrap();
            assert_eq!(c.centroids, vec![vec![4, 3]]);
            assert_eq!(c.assignments, vec![0, 0, 0]);
            assert!(c.iterations <= 2);
            if max_iterations >= 2 {
                assert!(c.converged);
            }
        }
    }
}

#[test]
fn single_cluster_mean_rounds_down() {
    let points = pts(&[&[-1, 1], &[0, 2]]);
    let c = k_means_seeded(&points, 1, 5, 3).unwrap();
    assert_eq!(c.centroids, vec![vec![-1, 1]]);
}

#[test]
fn same_seed_same_assignments() {
    let points = pts(&[&[0, 0], &[1, 0], &[10, 10], &[11, 10], &[-5, 7], &[-6, 8]]);
    for seed in [0u64, 1, 42, 9999] {
        let a = k_means_seeded(&points, 3, 20, seed).unwrap();
        let b = k_means_seeded(&points, 3, 20, seed).unwrap();
        assert_eq!(a.assignments, b.assignments);
        assert_eq!(a.centroids, b.centroids);
        assert_eq!(a.iterations, b.iterations);
    }
}

#[test]
fn assignments_one_per_point_in_range() {
    let points = pts(&[&[3, 1], &[2, 2], &[9, 0], &[0, 9], &[5, 5], &[1, 1], &[7, 3]]);
    for k in 1..=7usize {
        let a = k_means(&points, k, 15).unwrap();
        assert_eq!(a.len(), points.len());
        assert!(a.iter().all(|&c| c < k));
    }
}

#[test]
fn seeded_centroids_are_distinct_points() {
    let points = pts(&[&[0, 0], &[100, 0], &[0, 100]]);
    for seed in 0..8u64 {
        let c = k_means_seeded(&points, 3, 1, seed).unwrap();
        let mut a = c.assignments.clone();
        a.sort();
        assert_eq!(a, vec![0, 1, 2]);
    }
}

#[test]
fn k_means_from_given_seeds() {
    let points = pts(&[&[10, 0], &[9, 1], &[-10, 0]]);
    let c = k_means_from(&points, 10, &[0, 1]);
    assert_eq!(c.assignments, vec![0, 0, 1]);
    assert_eq!(c.centroids, vec![vec![9, 0], vec![-10, 0]]);
    assert_eq!(c.iterations, 3);
    assert!(c.converged);
}

#[test]
fn empty_cluster_keeps_its_centroid() {
    let points = pts(&[&[0, 0], &[0, 0], &[0, 0]]);
    let c = k_means_from(&points, 5, &[0, 1]);
    assert_eq!(c.assignments, vec![0, 0, 0]);
    assert_eq!(c.centroids, vec![vec![0, 0], vec![0, 0]]);
    assert!(c.converged);
}

#[test]
fn clustering_request_errors() {
    let points = pts(&[&[0, 0], &[1, 1]]);
    assert_eq!(k_means(&points, 0, 5), Err(CoreError::Validation(Invalid::ZeroK)));
    assert_eq!(k_means(&points, 1, 0), Err(CoreError::Validation(Invalid::ZeroIterations)));
    assert_eq!(k_means(&points, 3, 5), Err(CoreError::ClusteringPrecondition { k: 3, point_count: 2 }));
    assert_eq!(k_means(&[], 1, 5), Err(CoreError::ClusteringPrecondition { k: 1, point_count: 0 }));
    let ragged = pts(&[&[0, 0], &[1, 1], &[1, 2, 3]]);
    assert_eq!(
        k_means(&ragged, 2, 5),
        Err(CoreError::Validation(Invalid::Dimension { expected: 2, found: 3 }))
    );
}

#[test]
fn successive_runs_increase_generation_and_replace_current() {
    let mut store = VectorStore::new(2);
    for (id, v) in [(1i64, vec![0, 0]), (2, vec![1, 0]), (3, vec![20, 20]), (4, vec![21, 20])] {
        store.put(id, v).unwrap();
    }
    let mut log = AssignmentLog::new();
    let g1 = cluster(&store, &mut log, 2, 10, 1, 100).unwrap();
    let g2 = cluster(&store, &mut log, 1, 10, 2, 200).unwrap();
    assert_eq!(g1, 1);
    assert_eq!(g2, 2);
    assert!(g2 > g1);
    let current = log.current();
    assert_eq!(current.len(), 4);
    assert!(current.iter().all(|a| a.generation == g2 && a.created_at == 200 && a.cluster_id == 0));
    assert_eq!(current.iter().map(|a| a.rowid).collect::<Vec<_>>(), vec![1, 2, 3, 4]);
    assert_eq!(log.rows().len(), 8);
}

#[test]
fn refused_run_writes_nothing() {
    let mut store = VectorStore::new(1);
    store.put(1, vec![5]).unwrap();
    let mut log = AssignmentLog::new();
    assert_eq!(
        cluster(&store, &mut log, 2, 10, 0, 0),
        Err(CoreError::ClusteringPrecondition { k: 2, point_count: 1 })
    );
    assert_eq!(log.rows().len(), 0);
    assert_eq!(log.max_generation(), 0);
}

#[test]
fn insert_assignments_errors() {
    let mut log = AssignmentLog::new();
    let points = pts(&[&[1], &[2]]);
    assert_eq!(
        insert_cluster_assignments(&mut log, &[0], &points, 0),
        Err(CoreError::Validation(Invalid::AssignmentCount { assignments: 1, points: 2 }))
    );
    assert_eq!(
        insert_cluster_assignments(&mut log, &[], &[], 0),
        Err(CoreError::ClusteringPrecondition { k: 0, point_count: 0 })
    );
    assert_eq!(insert_cluster_assignments(&mut log, &[1, 0], &points, 9), Ok(1));
    assert_eq!(log.current().iter().map(|a| (a.rowid, a.cluster_id)).collect::<Vec<_>>(), vec![(1, 1), (2, 0)]);
}

#[test]
fn end_to_end_similar_cards_share_a_cluster() {
    let mut catalog = CatalogStore::new();
    let mut store = VectorStore::new(2);
    for (name, v) in [("Bolt", vec![10, 0]), ("Shock", vec![9, 1]), ("Counterspell", vec![-10, 0])] {
        let rowid = catalog.upsert(mtg_card(name, name));
        store.put(rowid as i64, v).unwrap();
    }
    for seed in 0..10u64 {
        let mut log = AssignmentLog::new();
        let g = cluster(&store, &mut log, 2, 10, seed, 0).unwrap();
        assert_eq!(g, 1);
        let by_row: Vec<usize> = log.current().iter().map(|a| a.cluster_id).collect();
        assert_eq!(by_row.len(), 3);
        assert_eq!(by_row[0], by_row[1]);
        assert_ne!(by_row[0], by_row[2]);
    }
}

fn mtg_card(id: &str, name: &str) -> Card {
    Card {
        id: id.to_string(),
        oracle_id: String::new(),
        name: name.to_string(),
        lang: None,
        released_at: None,
        mana_cost: None,
        cmc_hundredths: None,
        type_line: None,
        oracle_text: None,
        power: None,
        toughness: None,
        rarity: None,
        flavor_text: None,
        artist: None,
        set_code: None,
        collector_number: None,
        digital: None,
        image_url: None,
    }
}
