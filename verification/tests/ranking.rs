use cosine_lsh::hash::QueryResult;
use cosine_lsh::rank::{comes_before, rank, sort_candidates};

static ORIGIN: [i32; 2] = [0, 0];

fn entry(distance: u128, id: u64) -> QueryResult<'static, u64> {
    QueryResult { distance, vector: &ORIGIN, extra_data: id * 10, id }
}

fn ids(results: &[QueryResult<'_, u64>]) -> Vec<u64> {
    results.iter().map(|r| r.id).collect()
}

#[test]
fn nearer_comes_first() {
    assert!(comes_before(&entry(1, 9), &entry(2, 0)));
    assert!(!comes_before(&entry(2, 0), &entry(1, 9)));
}

#[test]
fn equal_distance_is_ordered_by_id() {
    assert!(comes_before(&entry(4, 1), &entry(4, 2)));
    assert!(!comes_before(&entry(4, 2), &entry(4, 1)));
    assert!(!comes_before(&entry(4, 2), &entry(4, 2)));
}

#[test]
fn sorting_keeps_every_candidate() {
    let sorted = sort_candidates(vec![entry(9, 0), entry(1, 1), entry(5, 2), entry(1, 3)]);
    assert_eq!(ids(&sorted), vec![1, 3, 2, 0]);
    assert_eq!(sorted[0].extra_data, 10);
    assert_eq!(sorted[3].distance, 9);
}

#[test]
fn ranking_nothing_gives_nothing() {
    assert!(rank(Vec::<QueryResult<'static, u64>>::new(), 0).is_none());
    assert!(rank(Vec::<QueryResult<'static, u64>>::new(), 3).is_none());
}

#[test]
fn ranking_without_a_cap_returns_all() {
    let out = rank(vec![entry(7, 0), entry(3, 1), entry(5, 2)], 0).unwrap();
    assert_eq!(ids(&out), vec![1, 2, 0]);
}

#[test]
fn ranking_with_a_cap_keeps_the_nearest() {
    let out = rank(vec![entry(7, 0), entry(3, 1), entry(5, 2), entry(4, 3)], 2).unwrap();
    assert_eq!(ids(&out), vec![1, 3]);
    assert!(out.iter().all(|r| r.distance <= 5));
}

#[test]
fn a_cap_above_the_number_of_candidates_changes_nothing() {
    let out = rank(vec![entry(7, 0), entry(3, 1)], 2).unwrap();
    assert_eq!(ids(&out), vec![1, 0]);
    let out = rank(vec![entry(7, 0), entry(3, 1)], 10).unwrap();
    assert_eq!(ids(&out), vec![1, 0]);
}

#[test]
fn ranked_distances_never_decrease() {
    let out = rank(
        vec![entry(8, 0), entry(2, 1), entry(8, 2), entry(0, 3), entry(2, 4), entry(6, 5)],
        0,
    ).unwrap();
    assert_eq!(ids(&out), vec![3, 1, 4, 5, 0, 2]);
    for pair in out.windows(2) {
        assert!(pair[0].distance <= pair[1].distance);
    }
}
