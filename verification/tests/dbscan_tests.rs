use dbscan::cluster::fit_labels;
use dbscan::{Dbscan, DbscanError, PointSet, SpatialIndex};

#[test]
fn test_clusters() {
    let data = PointSet::new(vec![
        vec![10, 20],
        vec![11, 22],
        vec![9, 19],
        vec![10, 21],
        vec![-20, 30],
        vec![-22, 31],
        vec![-10, -20],
        vec![-20, -10],
    ])
    .unwrap();
    let model = Dbscan::new(&data, 5, 2, false);
    let clustering = model.clusters;
    assert!(clustering[0] == clustering[1] && clustering[1] == clustering[2] && clustering[2] == clustering[3]);
    assert!(clustering[4] == clustering[5]);
    assert!(clustering[6] == clustering[7]);
    assert!(clustering[0] != clustering[4]);
    assert!(clustering[4] != clustering[6]);
    assert!(clustering[6] != clustering[0]);
}

#[test]
fn test_border_points() {
    let with_data = PointSet::new(vec![vec![155], vec![200], vec![210], vec![220], vec![265]]).unwrap();

    let with = Dbscan::new(&with_data, 50, 3, true);
    let without = Dbscan::new(&with_data, 50, 3, false);
    let with_borders_clustering = with.clusters;
    let without_borders_clustering = without.clusters;
    assert!(with_borders_clustering.iter().all(|x| *x == 1));
    assert!(without_borders_clustering.iter().take(1).all(|x| *x == 0));
    assert!(without_borders_clustering.iter().skip(1).take(3).all(|x| *x == 1));
    assert!(without_borders_clustering.iter().skip(4).all(|x| *x == 0));
}

#[test]
fn test_prediction() {
    let data = PointSet::new(vec![
        vec![10, 20],
        vec![11, 22],
        vec![9, 19],
        vec![10, 21],
        vec![-20, 30],
        vec![-22, 31],
    ])
    .unwrap();
    let model = Dbscan::new(&data, 5, 2, false);

    let new_data = PointSet::new(vec![vec![10, 20], vec![40, 40]]).unwrap();
    let classes = model.predict(&data, &new_data).unwrap();

    let c0 = classes.get(0).unwrap();
    assert!(c0.iter().any(|c| *c == model.clusters[0]));
    assert!(classes[1] == vec![0]);
}

#[test]
fn point_set_rejects_empty() {
    let r = PointSet::new(vec![]);
    assert!(matches!(r, Err(DbscanError::DimensionMismatch)));
}

#[test]
fn point_set_rejects_ragged_rows() {
    let r = PointSet::new(vec![vec![1, 2], vec![3]]);
    assert!(matches!(r, Err(DbscanError::DimensionMismatch)));
}

#[test]
fn radius_query_rejects_wrong_dimension() {
    let data = PointSet::new(vec![vec![0, 0], vec![3, 4]]).unwrap();
    let index = SpatialIndex::build(&data);
    let mut out: Vec<usize> = Vec::new();
    let q: Vec<i32> = vec![0];
    assert!(index.radius_query(&q, 10, &mut out) == Err(DbscanError::QueryError));
}

#[test]
fn radius_query_exact_boundary() {
    let data = PointSet::new(vec![vec![0], vec![5], vec![11]]).unwrap();
    let index = SpatialIndex::build(&data);
    let mut out: Vec<usize> = Vec::new();
    let q: Vec<i32> = vec![0];
    assert!(index.radius_query(&q, 5, &mut out) == Ok(()));
    assert_eq!(out, vec![0, 1]);
}

#[test]
fn predict_rejects_dimension_mismatch() {
    let data = PointSet::new(vec![vec![0, 0], vec![1, 1]]).unwrap();
    let model = Dbscan::new(&data, 5, 1, false);
    let new_data = PointSet::new(vec![vec![0]]).unwrap();
    assert!(matches!(model.predict(&data, &new_data), Err(DbscanError::DimensionMismatch)));
}

#[test]
fn core_status_order_independent() {
    let data = PointSet::new(vec![
        vec![10, 20],
        vec![11, 22],
        vec![9, 19],
        vec![10, 21],
        vec![-20, 30],
        vec![-22, 31],
        vec![-10, -20],
        vec![-20, -10],
    ])
    .unwrap();
    let forward: Vec<usize> = (0..8).collect();
    let backward: Vec<usize> = (0..8).rev().collect();
    let l1 = fit_labels(&data, 5, 2, false, &forward);
    let l2 = fit_labels(&data, 5, 2, false, &backward);
    for i in 0..8 {
        assert_eq!(l1[i] == 0, l2[i] == 0);
    }
    let b1 = fit_labels(&data, 5, 2, true, &forward);
    let b2 = fit_labels(&data, 5, 2, true, &backward);
    for i in 0..8 {
        assert_eq!(b1[i] == 0, b2[i] == 0);
    }
}

#[test]
fn separated_groups_get_distinct_labels() {
    let data = PointSet::new(vec![
        vec![0],
        vec![1],
        vec![2],
        vec![100],
        vec![101],
        vec![102],
        vec![50],
    ])
    .unwrap();
    let model = Dbscan::new(&data, 2, 3, false);
    let labels = model.clusters;
    assert!(labels[0] != 0 && labels[0] == labels[1] && labels[1] == labels[2]);
    assert!(labels[3] != 0 && labels[3] == labels[4] && labels[4] == labels[5]);
    assert!(labels[0] != labels[3]);
    assert_eq!(labels[6], 0);
}

#[test]
fn predict_is_idempotent() {
    let data = PointSet::new(vec![vec![0, 0], vec![1, 1], vec![100, 100]]).unwrap();
    let model = Dbscan::new(&data, 3, 2, false);
    let new_data = PointSet::new(vec![vec![0, 1], vec![50, 50], vec![99, 100]]).unwrap();
    let first = model.predict(&data, &new_data).unwrap();
    let second = model.predict(&data, &new_data).unwrap();
    assert_eq!(first, second);
}

#[test]
fn growing_eps_does_not_split_clusters() {
    let data = PointSet::new(vec![
        vec![10, 20],
        vec![11, 22],
        vec![9, 19],
        vec![10, 21],
        vec![-20, 30],
        vec![-22, 31],
        vec![-10, -20],
        vec![-20, -10],
    ])
    .unwrap();
    let order: Vec<usize> = (0..8).collect();
    let narrow = fit_labels(&data, 5, 2, false, &order);
    let wide = fit_labels(&data, 60, 2, false, &order);
    let mut narrow_ids: Vec<usize> = Vec::new();
    for &l in narrow.iter() {
        if l != 0 && !narrow_ids.contains(&l) {
            narrow_ids.push(l);
        }
    }
    let mut wide_ids: Vec<usize> = Vec::new();
    for &l in wide.iter() {
        if l != 0 && !wide_ids.contains(&l) {
            wide_ids.push(l);
        }
    }
    assert_eq!(narrow_ids.len(), 2);
    assert_eq!(wide_ids.len(), 1);
    assert!(wide_ids.len() <= narrow_ids.len());
}

#[test]
fn min_points_one_makes_every_point_core() {
    let data = PointSet::new(vec![vec![0], vec![100]]).unwrap();
    let model = Dbscan::new(&data, 5, 1, false);
    let labels = model.clusters;
    assert!(labels[0] != 0);
    assert!(labels[1] != 0);
    assert!(labels[0] != labels[1]);
}

#[test]
fn points_at_exactly_eps_cluster_together() {
    let data = PointSet::new(vec![vec![0], vec![5]]).unwrap();
    let model = Dbscan::new(&data, 5, 2, false);
    let labels = model.clusters;
    assert!(labels[0] != 0);
    assert_eq!(labels[0], labels[1]);
}

#[test]
fn predict_far_point_is_noise_only() {
    let data = PointSet::new(vec![vec![0], vec![1], vec![2]]).unwrap();
    let model = Dbscan::new(&data, 2, 2, true);
    let new_data = PointSet::new(vec![vec![1000]]).unwrap();
    let classes = model.predict(&data, &new_data).unwrap();
    assert_eq!(classes, vec![vec![0]]);
}
