use cosine_lsh::hash::Hyperlanes;
use cosine_lsh::{CosineLSH, LshError};

/// Both unit vectors along the first two axes fall on the non-negative
/// side of both hyperplanes.
fn colliding_planes() -> Hyperlanes {
    Hyperlanes::from_rows(vec![vec![1, 1, 0], vec![0, 0, 1]])
}

/// The first hyperplane separates the first two axes.
fn separating_planes() -> Hyperlanes {
    Hyperlanes::from_rows(vec![vec![1, -1, 0], vec![0, 0, 1]])
}

fn ids(index: &CosineLSH, q: Vec<i32>, max_result: usize) -> Vec<u64> {
    match index.query(q, max_result).unwrap() {
        Some(results) => results.iter().map(|r| r.id).collect(),
        None => Vec::new(),
    }
}

#[test]
fn nearest_of_two_colliding_points() {
    let mut index = CosineLSH::with_hyperplanes(3, 1, 2, colliding_planes()).unwrap();
    assert_eq!(index.insert(vec![1, 0, 0], 10), Ok(()));
    assert_eq!(index.insert(vec![0, 1, 0], 20), Ok(()));
    let results = index.query(vec![1, 0, 0], 1).unwrap().unwrap();
    assert_eq!(results.len(), 1);
    assert_eq!(results[0].id, 0);
    assert_eq!(results[0].distance, 0);
    assert_eq!(results[0].extra_data, 10);
    assert_eq!(results[0].vector, &[1, 0, 0]);
}

#[test]
fn both_colliding_points_without_a_cap() {
    let mut index = CosineLSH::with_hyperplanes(3, 1, 2, colliding_planes()).unwrap();
    index.insert(vec![1, 0, 0], 10).unwrap();
    index.insert(vec![0, 1, 0], 20).unwrap();
    let results = index.query(vec![1, 0, 0], 0).unwrap().unwrap();
    assert_eq!(results.len(), 2);
    assert_eq!((results[0].id, results[0].distance, results[0].extra_data), (0, 0, 10));
    assert_eq!((results[1].id, results[1].distance, results[1].extra_data), (1, 2, 20));
    assert_eq!(results[1].vector, &[0, 1, 0]);
}

#[test]
fn points_in_other_buckets_are_not_candidates() {
    let mut index = CosineLSH::with_hyperplanes(3, 1, 2, separating_planes()).unwrap();
    index.insert(vec![1, 0, 0], 10).unwrap();
    index.insert(vec![0, 1, 0], 20).unwrap();
    assert_eq!(ids(&index, vec![1, 0, 0], 0), vec![0]);
    assert_eq!(ids(&index, vec![0, 1, 0], 0), vec![1]);
    assert_eq!(ids(&index, vec![0, 5, 0], 0), vec![1]);
}

#[test]
fn no_collision_gives_no_result() {
    let mut index = CosineLSH::with_hyperplanes(3, 1, 2, separating_planes()).unwrap();
    index.insert(vec![1, 0, 0], 10).unwrap();
    assert!(index.query(vec![0, 1, 0], 0).unwrap().is_none());
    assert!(index.query(vec![0, 1, 0], 3).unwrap().is_none());
}

#[test]
fn empty_index_gives_no_result() {
    let index = CosineLSH::with_hyperplanes(3, 1, 2, colliding_planes()).unwrap();
    assert_eq!(index.len(), 0);
    for max_result in [0, 1, 2, 100] {
        assert!(index.query(vec![1, 0, 0], max_result).unwrap().is_none());
    }
}

#[test]
fn empty_random_index_gives_no_result() {
    let index = CosineLSH::new(4, 3, 5);
    for max_result in [0, 1, 7] {
        assert!(index.query(vec![1, 2, 3, 4], max_result).unwrap().is_none());
    }
}

#[test]
fn insert_rejects_another_dimension() {
    let mut index = CosineLSH::with_hyperplanes(3, 1, 2, colliding_planes()).unwrap();
    assert_eq!(index.insert(vec![1, 0], 1), Err(LshError::DimensionMismatch));
    assert_eq!(index.insert(vec![1, 0, 0, 0], 1), Err(LshError::DimensionMismatch));
    assert_eq!(index.insert(Vec::new(), 1), Err(LshError::DimensionMismatch));
    assert_eq!(index.len(), 0);
    assert!(index.query(vec![1, 0, 0], 0).unwrap().is_none());
}

#[test]
fn query_rejects_another_dimension() {
    let mut index = CosineLSH::with_hyperplanes(3, 1, 2, colliding_planes()).unwrap();
    index.insert(vec![1, 0, 0], 10).unwrap();
    assert_eq!(index.query(vec![1, 0], 0).err(), Some(LshError::DimensionMismatch));
    assert_eq!(index.query(vec![1, 0, 0, 0], 1).err(), Some(LshError::DimensionMismatch));
    assert_eq!(index.query(Vec::new(), 0).err(), Some(LshError::DimensionMismatch));
}

#[test]
fn dimension_is_checked_for_every_shape_of_index() {
    for dim in 1..5i64 {
        for l in 1..4i64 {
            for m in 1..4i64 {
                let mut index = CosineLSH::new(dim, l, m);
                let short = vec![1; (dim - 1) as usize];
                let long = vec![1; (dim + 1) as usize];
                assert_eq!(index.insert(short.clone(), 0), Err(LshError::DimensionMismatch));
                assert_eq!(index.insert(long.clone(), 0), Err(LshError::DimensionMismatch));
                assert_eq!(index.query(short, 0).err(), Some(LshError::DimensionMismatch));
                assert_eq!(index.query(long, 0).err(), Some(LshError::DimensionMismatch));
                assert_eq!(index.insert(vec![1; dim as usize], 0), Ok(()));
                assert_eq!(index.len(), 1);
            }
        }
    }
}

#[test]
fn a_stored_vector_finds_itself_under_random_hyperplanes() {
    let mut index = CosineLSH::new(5, 4, 6);
    index.insert(vec![9, -3, 0, 2, 7], 77).unwrap();
    let results = index.query(vec![9, -3, 0, 2, 7], 0).unwrap().unwrap();
    assert_eq!(results.len(), 1);
    assert_eq!(results[0].id, 0);
    assert_eq!(results[0].distance, 0);
    assert_eq!(results[0].extra_data, 77);
}

#[test]
fn ids_follow_insertion_order() {
    let mut index = CosineLSH::with_hyperplanes(3, 1, 2, colliding_planes()).unwrap();
    for k in 0..5 {
        assert_eq!(index.len(), k);
        index.insert(vec![k as i32 + 1, 1, 0], 100 + k).unwrap();
    }
    let results = index.query(vec![1, 1, 0], 0).unwrap().unwrap();
    let found: Vec<(u64, u64)> = results.iter().map(|r| (r.id, r.extra_data)).collect();
    assert_eq!(found, vec![(0, 100), (1, 101), (2, 102), (3, 103), (4, 104)]);
}

#[test]
fn results_come_in_ascending_distance() {
    let mut index = CosineLSH::with_hyperplanes(3, 1, 2, colliding_planes()).unwrap();
    index.insert(vec![10, 0, 0], 0).unwrap();
    index.insert(vec![2, 0, 0], 1).unwrap();
    index.insert(vec![5, 5, 0], 2).unwrap();
    index.insert(vec![1, 1, 1], 3).unwrap();
    let results = index.query(vec![1, 0, 0], 0).unwrap().unwrap();
    let found: Vec<(u64, u128)> = results.iter().map(|r| (r.id, r.distance)).collect();
    assert_eq!(found, vec![(1, 1), (3, 2), (2, 41), (0, 81)]);
    for pair in results.windows(2) {
        assert!(pair[0].distance <= pair[1].distance);
    }
}

#[test]
fn equally_near_results_come_in_id_order() {
    let mut index = CosineLSH::with_hyperplanes(3, 1, 2, colliding_planes()).unwrap();
    index.insert(vec![3, 0, 0], 0).unwrap();
    index.insert(vec![0, 3, 0], 1).unwrap();
    index.insert(vec![0, 0, 3], 2).unwrap();
    index.insert(vec![0, 0, 0], 3).unwrap();
    assert_eq!(ids(&index, vec![1, 1, 1], 0), vec![3, 0, 1, 2]);
}

#[test]
fn a_cap_keeps_the_nearest_candidates() {
    let mut index = CosineLSH::with_hyperplanes(3, 1, 2, colliding_planes()).unwrap();
    let far = [9, 4, 7, 1, 3, 8];
    for (k, x) in far.iter().enumerate() {
        index.insert(vec![*x, 0, 0], k as u64).unwrap();
    }
    let all = index.query(vec![0, 0, 0], 0).unwrap().unwrap();
    assert_eq!(all.len(), 6);
    let capped = index.query(vec![0, 0, 0], 3).unwrap().unwrap();
    assert_eq!(capped.len(), 3);
    let kept: Vec<u64> = capped.iter().map(|r| r.id).collect();
    assert_eq!(kept, vec![3, 4, 1]);
    let worst_kept = capped.iter().map(|r| r.distance).max().unwrap();
    for r in all.iter().filter(|r| !kept.contains(&r.id)) {
        assert!(worst_kept <= r.distance);
    }
}

#[test]
fn a_cap_equal_to_the_candidates_returns_all() {
    let mut index = CosineLSH::with_hyperplanes(3, 1, 2, colliding_planes()).unwrap();
    index.insert(vec![4, 0, 0], 0).unwrap();
    index.insert(vec![1, 0, 0], 1).unwrap();
    assert_eq!(ids(&index, vec![0, 0, 0], 2), vec![1, 0]);
    assert_eq!(ids(&index, vec![0, 0, 0], 3), vec![1, 0]);
    assert_eq!(ids(&index, vec![0, 0, 0], 1), vec![1]);
}

#[test]
fn a_point_colliding_in_several_tables_is_returned_once() {
    let planes = Hyperlanes::from_rows(
        vec![vec![1, 1, 0], vec![0, 0, 1], vec![1, 0, 0], vec![0, 1, 0], vec![1, 1, 1], vec![2, 1, 0]],
    );
    let mut index = CosineLSH::with_hyperplanes(3, 3, 2, planes).unwrap();
    index.insert(vec![1, 0, 0], 10).unwrap();
    index.insert(vec![0, 1, 0], 20).unwrap();
    index.insert(vec![1, 1, 0], 30).unwrap();
    for t in 0..3 {
        assert_eq!(index.lookup(t, 3).len(), 3);
    }
    let results = index.query(vec![1, 0, 0], 0).unwrap().unwrap();
    let found: Vec<u64> = results.iter().map(|r| r.id).collect();
    assert_eq!(found, vec![0, 2, 1]);
}

#[test]
fn a_point_colliding_in_one_table_only_is_a_candidate() {
    let planes = Hyperlanes::from_rows(vec![vec![1, -1, 0], vec![1, 1, 0]]);
    let mut index = CosineLSH::with_hyperplanes(3, 2, 1, planes).unwrap();
    index.insert(vec![1, 0, 0], 10).unwrap();
    index.insert(vec![0, 1, 0], 20).unwrap();
    assert_eq!(index.lookup(0, 1).len(), 1);
    assert_eq!(index.lookup(0, 0).len(), 1);
    assert_eq!(index.lookup(1, 1).len(), 2);
    assert_eq!(ids(&index, vec![1, 0, 0], 0), vec![0, 1]);
}

#[test]
fn more_tables_never_lose_candidates() {
    let rows = vec![vec![1, -1, 0], vec![0, 1, -1], vec![1, 1, 1], vec![-1, 0, 1]];
    let data = vec![vec![1, 0, 0], vec![0, 1, 0], vec![0, 0, 1], vec![-1, -1, -1], vec![2, 1, 0]];
    let queries = vec![vec![1, 0, 0], vec![0, 2, 1], vec![-3, 0, 1], vec![0, 0, -1]];
    let mut sizes: Vec<Vec<usize>> = Vec::new();
    for l in 1..=4usize {
        let planes = Hyperlanes::from_rows(rows[..l].to_vec());
        let mut index = CosineLSH::with_hyperplanes(3, l as i64, 1, planes).unwrap();
        for (k, v) in data.iter().enumerate() {
            index.insert(v.clone(), k as u64).unwrap();
        }
        sizes.push(queries.iter().map(|q| ids(&index, q.clone(), 0).len()).collect());
    }
    for l in 1..sizes.len() {
        for q in 0..queries.len() {
            assert!(sizes[l - 1][q] <= sizes[l][q]);
        }
    }
    assert_eq!(sizes[0], vec![4, 1, 1, 4]);
    assert_eq!(sizes[1], vec![5, 4, 2, 5]);
    assert_eq!(sizes[2], vec![5, 5, 3, 5]);
    assert_eq!(sizes[3], vec![5, 5, 3, 5]);
}

#[test]
fn lookup_reads_one_bucket() {
    let mut index = CosineLSH::with_hyperplanes(3, 1, 2, separating_planes()).unwrap();
    index.insert(vec![1, 0, 0], 10).unwrap();
    index.insert(vec![0, 1, 0], 20).unwrap();
    index.insert(vec![2, 0, 5], 30).unwrap();
    let bucket = index.lookup(0, 3);
    let found: Vec<(u64, u64)> = bucket.iter().map(|p| (p.id, p.extra_data)).collect();
    assert_eq!(found, vec![(0, 10), (2, 30)]);
    assert_eq!(bucket[1].vector, vec![2, 0, 5]);
    let bucket = index.lookup(0, 1);
    assert_eq!(bucket.len(), 1);
    assert_eq!(bucket[0].id, 1);
}

#[test]
fn lookup_of_an_absent_key_or_table_is_empty() {
    let mut index = CosineLSH::with_hyperplanes(3, 1, 2, separating_planes()).unwrap();
    index.insert(vec![1, 0, 0], 10).unwrap();
    assert!(index.lookup(0, 0).is_empty());
    assert!(index.lookup(0, 2).is_empty());
    assert!(index.lookup(0, 99).is_empty());
    assert!(index.lookup(1, 3).is_empty());
}

#[test]
fn hyperplanes_of_the_wrong_shape_are_refused() {
    assert!(CosineLSH::with_hyperplanes(3, 2, 2, colliding_planes()).is_none());
    assert!(CosineLSH::with_hyperplanes(2, 1, 2, colliding_planes()).is_none());
    assert!(CosineLSH::with_hyperplanes(3, 1, 1, colliding_planes()).is_none());
    assert!(CosineLSH::with_hyperplanes(3, 2, 1, colliding_planes()).is_some());
}

#[test]
fn sixty_four_bits_per_table_are_supported() {
    let mut index = CosineLSH::new(2, 2, 64);
    index.insert(vec![1, 2], 5).unwrap();
    index.insert(vec![-1, -2], 6).unwrap();
    let results = index.query(vec![1, 2], 1).unwrap().unwrap();
    assert_eq!(results[0].id, 0);
    assert_eq!(results[0].distance, 0);
}
