//! The mathematical model of the index: the points inserted so far, the
//! bucket each of them falls into in each table, and the candidates a
//! query collects.

use crate::hash::Point;
use crate::keys::table_key;
use vstd::prelude::*;

verus! {

/// A stored point as contracts see it.
pub struct PointView<T> {
    pub vector: Seq<i32>,
    pub extra_data: T,
    pub id: u64,
}

impl<T> View for Point<T> {
    type V = PointView<T>;

    open spec fn view(&self) -> PointView<T> {
        PointView { vector: self.vector@, extra_data: self.extra_data, id: self.id }
    }
}

/// The views of the points of a bucket, in bucket order.
pub open spec fn bucket_view<T>(bucket: Seq<Point<T>>) -> Seq<PointView<T>> {
    Seq::new(bucket.len(), |i: int| bucket[i]@)
}

/// Ids are handed out in insertion order, starting from zero: the point
/// at position `n` carries id `n`.
pub open spec fn ids_in_order<T>(points: Seq<PointView<T>>) -> bool {
    forall|n: int| 0 <= n < points.len() ==> (#[trigger] points[n]).id == n
}

/// The bucket under `key` in table `t` after the insertion of `points`:
/// those of them whose key in that table is `key`, in insertion order.
pub open spec fn bucket_of<T>(
    points: Seq<PointView<T>>,
    rows: Seq<Seq<i32>>,
    m: int,
    t: int,
    key: nat,
) -> Seq<PointView<T>>
    decreases points.len(),
{
    if points.len() == 0 {
        Seq::empty()
    } else {
        let rest = bucket_of(points.drop_last(), rows, m, t, key);
        if table_key(rows, m, t, points.last().vector) == key {
            rest.push(points.last())
        } else {
            rest
        }
    }
}

/// `p` and `q` share a bucket in at least one of the `l` tables.
pub open spec fn collides(rows: Seq<Seq<i32>>, l: int, m: int, p: Seq<i32>, q: Seq<i32>) -> bool {
    exists|t: int| 0 <= t < l && #[trigger] table_key(rows, m, t, p) == table_key(rows, m, t, q)
}

/// The candidate set of the query `q`: the positions of the stored
/// points that collide with it. A point colliding in several tables is
/// one candidate.
pub open spec fn candidate_ids<T>(
    rows: Seq<Seq<i32>>,
    l: int,
    m: int,
    points: Seq<PointView<T>>,
    q: Seq<i32>,
) -> Set<int> {
    Set::new(|n: int| 0 <= n < points.len() && collides(rows, l, m, points[n].vector, q))
}

/// Every entry of a bucket is a stored point whose key in that table is
/// the bucket's key.
pub proof fn lemma_bucket_sound<T>(
    points: Seq<PointView<T>>,
    rows: Seq<Seq<i32>>,
    m: int,
    t: int,
    key: nat,
    j: int,
)
    requires
        0 <= j < bucket_of(points, rows, m, t, key).len(),
    ensures
        exists|n: int|
            0 <= n < points.len() && #[trigger] points[n] == bucket_of(points, rows, m, t, key)[j]
                && table_key(rows, m, t, points[n].vector) == key,
    decreases points.len(),
{
    let rest = bucket_of(points.drop_last(), rows, m, t, key);
    if table_key(rows, m, t, points.last().vector) == key && j == rest.len() {
        assert(points[points.len() - 1] == bucket_of(points, rows, m, t, key)[j]);
    } else {
        lemma_bucket_sound(points.drop_last(), rows, m, t, key, j);
        let n = choose|n: int|
            0 <= n < points.drop_last().len() && #[trigger] points.drop_last()[n] == rest[j]
                && table_key(rows, m, t, points.drop_last()[n].vector) == key;
        assert(points[n] == bucket_of(points, rows, m, t, key)[j]);
    }
}

/// Every stored point is found in the bucket of its key, in every table.
pub proof fn lemma_bucket_complete<T>(
    points: Seq<PointView<T>>,
    rows: Seq<Seq<i32>>,
    m: int,
    t: int,
    n: int,
)
    requires
        0 <= n < points.len(),
    ensures
        bucket_of(points, rows, m, t, table_key(rows, m, t, points[n].vector)).contains(points[n]),
    decreases points.len(),
{
    let key = table_key(rows, m, t, points[n].vector);
    let rest = bucket_of(points.drop_last(), rows, m, t, key);
    let full = bucket_of(points, rows, m, t, key);
    if n == points.len() - 1 {
        assert(full[rest.len() as int] == points[n]);
    } else {
        lemma_bucket_complete(points.drop_last(), rows, m, t, n);
        let j = choose|j: int| 0 <= j < rest.len() && rest[j] == points.drop_last()[n];
        assert(full[j] == points[n]);
    }
}

/// Inserting a point appends it to the bucket of its key and leaves
/// every other bucket of the table as it was.
pub proof fn lemma_bucket_push<T>(
    points: Seq<PointView<T>>,
    p: PointView<T>,
    rows: Seq<Seq<i32>>,
    m: int,
    t: int,
    key: nat,
)
    ensures
        bucket_of(points.push(p), rows, m, t, key) == if table_key(rows, m, t, p.vector) == key {
            bucket_of(points, rows, m, t, key).push(p)
        } else {
            bucket_of(points, rows, m, t, key)
        },
{
    assert(points.push(p).drop_last() =~= points);
}

/// A vector shares every bucket with itself: a stored point is always a
/// candidate of the query for its own vector.
pub proof fn lemma_stored_vector_is_candidate<T>(
    rows: Seq<Seq<i32>>,
    l: int,
    m: int,
    points: Seq<PointView<T>>,
    n: int,
)
    requires
        1 <= l,
        0 <= n < points.len(),
    ensures
        candidate_ids(rows, l, m, points, points[n].vector).contains(n),
{
    let v = points[n].vector;
    assert(table_key(rows, m, 0, v) >= 0);
    assert(collides(rows, l, m, v, v));
}

/// With no point stored, no query has a candidate.
pub proof fn lemma_empty_index_has_no_candidates<T>(
    rows: Seq<Seq<i32>>,
    l: int,
    m: int,
    q: Seq<i32>,
)
    ensures
        candidate_ids(rows, l, m, Seq::<PointView<T>>::empty(), q) == Set::<int>::empty(),
{
    assert(candidate_ids(rows, l, m, Seq::<PointView<T>>::empty(), q) =~= Set::<int>::empty());
}

/// The candidate set of a query is finite, and no larger than the
/// number of stored points.
pub proof fn lemma_candidates_finite<T>(
    rows: Seq<Seq<i32>>,
    l: int,
    m: int,
    points: Seq<PointView<T>>,
    q: Seq<i32>,
)
    ensures
        candidate_ids(rows, l, m, points, q).finite(),
        candidate_ids(rows, l, m, points, q).len() <= points.len(),
{
    let all = Set::new(|n: int| 0 <= n < points.len());
    vstd::set_lib::lemma_int_range(0, points.len() as int);
    assert(all =~= vstd::set_lib::set_int_range(0, points.len() as int));
    assert(candidate_ids(rows, l, m, points, q).subset_of(all));
    vstd::set_lib::lemma_len_subset(candidate_ids(rows, l, m, points, q), all);
}

/// More tables never lose a candidate. Take the same stored points and
/// the same query, tables of the same width, and let the hyperplanes of
/// the smaller index be the first hyperplanes of the larger one: then
/// every candidate of the smaller index is a candidate of the larger,
/// so the larger candidate set has at least as many members.
pub proof fn lemma_more_tables_keep_candidates<T>(
    rows_small: Seq<Seq<i32>>,
    rows_large: Seq<Seq<i32>>,
    l_small: int,
    l_large: int,
    m: int,
    points: Seq<PointView<T>>,
    q: Seq<i32>,
)
    requires
        1 <= m,
        1 <= l_small <= l_large,
        rows_small.len() == l_small * m,
        rows_large.len() == l_large * m,
        rows_small == rows_large.subrange(0, l_small * m),
    ensures
        candidate_ids(rows_small, l_small, m, points, q).subset_of(
            candidate_ids(rows_large, l_large, m, points, q),
        ),
        candidate_ids(rows_small, l_small, m, points, q).len() <= candidate_ids(
            rows_large,
            l_large,
            m,
            points,
            q,
        ).len(),
{
    let small = candidate_ids(rows_small, l_small, m, points, q);
    let large = candidate_ids(rows_large, l_large, m, points, q);
    assert forall|n: int| small.contains(n) implies large.contains(n) by {
        let p = points[n].vector;
        let t = choose|t: int|
            0 <= t < l_small && #[trigger] table_key(rows_small, m, t, p) == table_key(
                rows_small,
                m,
                t,
                q,
            );
        lemma_prefix_table_key(rows_small, rows_large, l_small, l_large, m, t, p);
        lemma_prefix_table_key(rows_small, rows_large, l_small, l_large, m, t, q);
        assert(table_key(rows_large, m, t, p) == table_key(rows_large, m, t, q));
    }
    lemma_candidates_finite(rows_large, l_large, m, points, q);
    vstd::set_lib::lemma_len_subset(small, large);
}

/// A table's key depends only on that table's own hyperplanes: adding
/// hyperplanes for further tables leaves it unchanged.
pub proof fn lemma_prefix_table_key(
    rows_small: Seq<Seq<i32>>,
    rows_large: Seq<Seq<i32>>,
    l_small: int,
    l_large: int,
    m: int,
    t: int,
    v: Seq<i32>,
)
    requires
        1 <= m,
        0 <= t < l_small <= l_large,
        rows_small.len() == l_small * m,
        rows_large.len() == l_large * m,
        rows_small == rows_large.subrange(0, l_small * m),
    ensures
        table_key(rows_small, m, t, v) == table_key(rows_large, m, t, v),
{
    assert(0 <= t * m && t * m + m <= l_small * m && l_small * m <= l_large * m)
        by (nonlinear_arith)
        requires
            1 <= m,
            0 <= t < l_small <= l_large,
    ;
    assert(crate::keys::chunk(crate::hash::signature_bits(rows_small, v), t, m)
        =~= crate::keys::chunk(crate::hash::signature_bits(rows_large, v), t, m));
}

} // verus!
