//! Approximate nearest-neighbour search over integer-coordinate vectors,
//! built on sign-of-projection (cosine) locality-sensitive hashing.
//!
//! A vector is hashed by the side of each of `l * m` hyperplanes it lies
//! on. The signature is cut into `l` chunks of `m` bits; chunk `t`, read
//! as a binary numeral, names the bucket of table `t` that holds the
//! vector. A query collects the points that share a bucket with it in
//! any table and ranks them by squared Euclidean distance.
//!
//! Coordinates are 32-bit integers, so projections and distances are
//! exact: real-valued data is stored at a fixed scale chosen by the
//! caller. Distances are squared and 128 bits wide, which no pair of
//! vectors can overflow.

pub mod distance;
pub mod hash;
pub mod keys;
pub mod model;
pub mod rank;

use crate::distance::{dist_sq, euclidean_dist_square};
use crate::hash::{
    has_shape, signature_bits, HashTable, HashTableBucket, HashTableKey, Hyperlanes, Point,
    QueryResult,
};
use crate::keys::{bits_value, bucket_key, chunk, split_signature, table_key};
use crate::model::{
    bucket_of, bucket_view, candidate_ids, collides, ids_in_order, lemma_bucket_push, PointView,
};
use crate::rank::{
    ascending_distances, distinct_ids, is_ranking, rank, ranks_before, result_limit,
    strictly_ranked,
};
use std::collections::{HashMap, HashSet};
use vstd::prelude::*;

verus! {

broadcast use vstd::std_specs::hash::group_hash_axioms;

/// Why the index turned a vector away.
#[derive(Debug, Clone, Copy, PartialEq, Eq)]
pub enum LshError {
    /// The vector does not have as many coordinates as the index.
    DimensionMismatch,
}

proof fn lemma_factors_bounded(l: int, m: int)
    requires
        1 <= l,
        1 <= m,
    ensures
        1 <= l <= l * m,
        1 <= m <= l * m,
        l * m == m * l,
{
    assert(l <= l * m && m <= l * m && l * m == m * l) by (nonlinear_arith)
        requires
            1 <= l,
            1 <= m,
    ;
}

/// Copies a vector coordinate by coordinate.
fn copy_vector(v: &Vec<i32>) -> (r: Vec<i32>)
    ensures
        r@ == v@,
{
    let mut r: Vec<i32> = Vec::with_capacity(v.len());
    let mut i: usize = 0;
    while i < v.len()
        invariant
            i <= v@.len(),
            r@ == v@.subrange(0, i as int),
        decreases v@.len() - i,
    {
        r.push(v[i]);
        assert(r@ =~= v@.subrange(0, i + 1));
        i = i + 1;
    }
    assert(v@.subrange(0, i as int) =~= v@);
    r
}

/// The fixed parameters of an index and its hyperplanes.
struct CosineLshParam {
    dim: i64,
    l: i64,
    m: i64,
    h: i64,
    hyperplanes: Hyperlanes,
}

impl CosineLshParam {
    spec fn wf(&self) -> bool {
        &&& 1 <= self.dim <= usize::MAX
        &&& 1 <= self.l
        &&& 1 <= self.m <= 64
        &&& self.h == self.l * self.m
        &&& self.h <= usize::MAX
        &&& has_shape(self.hyperplanes@, self.h as int, self.dim as int)
    }

    fn new(dim: i64, l: i64, m: i64, h: i64, hyperplanes: Hyperlanes) -> (p: CosineLshParam)
        ensures
            p.dim == dim,
            p.l == l,
            p.m == m,
            p.h == h,
            p.hyperplanes@ == hyperplanes@,
    {
        CosineLshParam { dim, l, m, hyperplanes, h }
    }

    /// Hashes `point` and cuts its signature into one chunk per table.
    fn hash(&self, point: &[i32]) -> (hvs: Vec<HashTableKey>)
        requires
            self.wf(),
        ensures
            hvs@.len() == self.l,
            forall|t: int|
                0 <= t < self.l ==> (#[trigger] hvs@[t])@ == chunk(
                    signature_bits(self.hyperplanes@, point@),
                    t,
                    self.m as int,
                ),
    {
        proof {
            lemma_factors_bounded(self.l as int, self.m as int);
        }
        let simhash = crate::hash::Hash::new(&self.hyperplanes, point);
        split_signature(&simhash.sig.0, self.l as usize, self.m as usize)
    }
}

/// `r` reports the stored point `p` as an answer to the query `q`: its
/// id, vector and payload, and its squared distance from `q`.
pub open spec fn describes<'a>(p: PointView<u64>, q: Seq<i32>, r: QueryResult<'a, u64>) -> bool {
    &&& r.id == p.id
    &&& r.vector@ == p.vector
    &&& r.extra_data == p.extra_data
    &&& r.distance == dist_sq(q, p.vector)
}

/// Some entry of `r` carries the id `n`.
pub open spec fn holds_id<'a>(r: Seq<QueryResult<'a, u64>>, n: int) -> bool {
    exists|j: int| 0 <= j < r.len() && (#[trigger] r[j]).id == n
}

/// The ids of `r`, in order.
pub open spec fn ids_of<'a>(r: Seq<QueryResult<'a, u64>>) -> Seq<int> {
    Seq::new(r.len(), |i: int| r[i].id as int)
}

/// Appending entries keeps every id that was held.
proof fn lemma_holds_id_extends<'a>(
    before: Seq<QueryResult<'a, u64>>,
    after: Seq<QueryResult<'a, u64>>,
)
    requires
        before.len() <= after.len(),
        before =~= after.subrange(0, before.len() as int),
    ensures
        forall|n: int| holds_id(before, n) ==> holds_id(after, n),
{
    assert forall|n: int| holds_id(before, n) implies holds_id(after, n) by {
        let w = choose|w: int| 0 <= w < before.len() && (#[trigger] before[w]).id == n;
        assert(after[w].id == n);
    }
}

/// A multi-table index of points under cosine locality-sensitive hashing.
pub struct CosineLSH {
    tables: Vec<HashTable<u64>>,
    next_id: u64,
    param: CosineLshParam,
    stored: Ghost<Seq<PointView<u64>>>,
}

impl CosineLSH {
    /// Number of coordinates of every stored and queried vector.
    pub closed spec fn dim(&self) -> int {
        self.param.dim as int
    }

    /// Number of hash tables.
    pub closed spec fn num_tables(&self) -> int {
        self.param.l as int
    }

    /// Number of signature bits that make one bucket key.
    pub closed spec fn bits_per_table(&self) -> int {
        self.param.m as int
    }

    /// The hyperplane normals, `num_tables() * bits_per_table()` rows.
    pub closed spec fn hyperplanes(&self) -> Seq<Seq<i32>> {
        self.param.hyperplanes@
    }

    /// The points inserted so far, in insertion order.
    pub closed spec fn points(&self) -> Seq<PointView<u64>> {
        self.stored@
    }

    /// What table `t` holds under `key`; nothing where it has no such key.
    pub closed spec fn bucket(&self, t: int, key: u64) -> Seq<PointView<u64>> {
        if self.tables@[t]@.contains_key(key) {
            bucket_view(self.tables@[t]@[key]@)
        } else {
            Seq::empty()
        }
    }

    /// The representation agrees with the model.
    pub closed spec fn inv(&self) -> bool {
        &&& self.param.wf()
        &&& self.tables@.len() == self.param.l
        &&& self.next_id == self.stored@.len()
    }

    /// The invariant of the index: positive parameters, one hyperplane
    /// per signature bit and each of the index's dimension, ids handed
    /// out in insertion order, every stored vector of the index's
    /// dimension, and every table holding each point under its key.
    pub open spec fn wf(&self) -> bool {
        &&& self.inv()
        &&& 1 <= self.dim()
        &&& 1 <= self.num_tables()
        &&& 1 <= self.bits_per_table() <= 64
        &&& has_shape(
            self.hyperplanes(),
            self.num_tables() * self.bits_per_table(),
            self.dim(),
        )
        &&& self.points().len() <= u64::MAX
        &&& ids_in_order(self.points())
        &&& forall|n: int|
            0 <= n < self.points().len() ==> (#[trigger] self.points()[n]).vector.len()
                == self.dim()
        &&& forall|t: int, key: u64|
            0 <= t < self.num_tables() ==> #[trigger] self.bucket(t, key) == bucket_of(
                self.points(),
                self.hyperplanes(),
                self.bits_per_table(),
                t,
                key as nat,
            )
    }

    /// Builds an empty index over the given hyperplanes. Succeeds
    /// exactly when there are `l * m` hyperplanes of dimension `dim`.
    pub fn with_hyperplanes(dim: i64, l: i64, m: i64, hyperplanes: Hyperlanes) -> (r: Option<
        CosineLSH,
    >)
        requires
            1 <= dim <= usize::MAX,
            1 <= l,
            1 <= m <= 64,
            l * m <= usize::MAX,
            l * m <= i64::MAX,
        ensures
            r.is_some() <==> has_shape(hyperplanes@, l * m, dim as int),
            r.is_some() ==> {
                let idx = r.unwrap();
                &&& idx.wf()
                &&& idx.dim() == dim
                &&& idx.num_tables() == l
                &&& idx.bits_per_table() == m
                &&& idx.hyperplanes() == hyperplanes@
                &&& idx.points() == Seq::<PointView<u64>>::empty()
            },
    {
        proof {
            lemma_factors_bounded(l as int, m as int);
        }
        let h: i64 = m * l;
        if !hyperplanes.is_matrix(h as usize, dim as usize) {
            return None;
        }
        let mut tables: Vec<HashTable<u64>> = Vec::with_capacity(l as usize);
        let mut t: usize = 0;
        while t < l as usize
            invariant
                1 <= l <= usize::MAX,
                t <= l,
                tables@.len() == t,
                forall|k: int, key: u64|
                    0 <= k < t ==> !(#[trigger] tables@[k]@.contains_key(key)),
            decreases l - t,
        {
            let table: HashTable<u64> = HashMap::new();
            tables.push(table);
            t = t + 1;
        }
        let idx = CosineLSH {
            tables,
            next_id: 0,
            param: CosineLshParam::new(dim, l, m, h, hyperplanes),
            stored: Ghost(Seq::empty()),
        };
        assert(idx.wf());
        Some(idx)
    }

    /// Builds an empty index with `l` tables of `m` bits each over
    /// vectors of `dim` coordinates, on freshly drawn hyperplanes.
    pub fn new(dim: i64, l: i64, m: i64) -> (idx: CosineLSH)
        requires
            1 <= dim <= usize::MAX,
            1 <= l,
            1 <= m <= 64,
            l * m <= usize::MAX,
            l * m <= i64::MAX,
        ensures
            idx.wf(),
            idx.dim() == dim,
            idx.num_tables() == l,
            idx.bits_per_table() == m,
            idx.points() == Seq::<PointView<u64>>::empty(),
    {
        proof {
            lemma_factors_bounded(l as int, m as int);
        }
        let hyperplanes = Hyperlanes::new(m * l, dim);
        CosineLSH::with_hyperplanes(dim, l, m, hyperplanes).unwrap()
    }

    /// Number of points inserted so far; also the id of the next one.
    pub fn len(&self) -> (n: u64)
        requires
            self.wf(),
        ensures
            n == self.points().len(),
    {
        self.next_id
    }

    /// Reads each chunk of signature bits as a bucket key. Succeeds
    /// exactly when no chunk is longer than 64 bits.
    pub fn to_basic_hash_table_keys(&self, keys: Vec<HashTableKey>) -> (r: Option<Vec<u64>>)
        ensures
            r.is_some() <==> forall|i: int| 0 <= i < keys@.len() ==> (#[trigger] keys@[i])@.len() <= 64,
            r.is_some() ==> r.unwrap()@.len() == keys@.len(),
            r.is_some() ==> forall|i: int|
                0 <= i < keys@.len() ==> (#[trigger] r.unwrap()@[i]) == bits_value(keys@[i]@),
    {
        let mut basic_keys: Vec<u64> = Vec::with_capacity(keys.len());
        let mut i: usize = 0;
        while i < keys.len()
            invariant
                i <= keys@.len(),
                basic_keys@.len() == i,
                forall|k: int| 0 <= k < i ==> (#[trigger] keys@[k])@.len() <= 64,
                forall|k: int| 0 <= k < i ==> (#[trigger] basic_keys@[k]) == bits_value(keys@[k]@),
            decreases keys@.len() - i,
        {
            match bucket_key(&keys[i]) {
                Some(key) => {
                    basic_keys.push(key);
                },
                None => {
                    assert(keys@[i as int]@.len() > 64);
                    return None;
                },
            }
            i = i + 1;
        }
        Some(basic_keys)
    }

    /// Stores `point` with its payload under a fresh id, in every table.
    /// A vector of another dimension than the index's is turned away
    /// and leaves the index as it was.
    pub fn insert(&mut self, point: Vec<i32>, extra_data: u64) -> (r: Result<(), LshError>)
        requires
            old(self).wf(),
            old(self).points().len() < u64::MAX,
        ensures
            final(self).wf(),
            final(self).dim() == old(self).dim(),
            final(self).num_tables() == old(self).num_tables(),
            final(self).bits_per_table() == old(self).bits_per_table(),
            final(self).hyperplanes() == old(self).hyperplanes(),
            point@.len() != old(self).dim() ==> {
                &&& r == Err::<(), LshError>(LshError::DimensionMismatch)
                &&& *final(self) == *old(self)
            },
            point@.len() == old(self).dim() ==> {
                &&& r == Ok::<(), LshError>(())
                &&& final(self).points() == old(self).points().push(
                    PointView {
                        vector: point@,
                        extra_data,
                        id: old(self).points().len() as u64,
                    },
                )
            },
    {
        if point.len() != self.param.dim as usize {
            return Err(LshError::DimensionMismatch);
        }
        let keys = self.table_keys(point.as_slice());
        let id: u64 = self.next_id;
        let ghost before = self.stored@;
        let ghost pv = PointView { vector: point@, extra_data, id };
        let ghost rows = self.param.hyperplanes@;
        let ghost m = self.param.m as int;
        let l: usize = self.tables.len();
        let mut t: usize = 0;
        while t < l
            invariant
                t <= l,
                l == self.tables@.len(),
                self.param == old(self).param,
                self.next_id == id,
                self.stored@ == before,
                rows == self.param.hyperplanes@,
                m == self.param.m,
                pv == (PointView { vector: point@, extra_data, id }),
                keys@.len() == l,
                forall|k: int| 0 <= k < l ==> (#[trigger] keys@[k]) == table_key(rows, m, k, point@),
                forall|k: int, key: u64|
                    0 <= k < t ==> #[trigger] self.bucket(k, key) == bucket_of(
                        before.push(pv),
                        rows,
                        m,
                        k,
                        key as nat,
                    ),
                forall|k: int, key: u64|
                    t <= k < l ==> #[trigger] self.bucket(k, key) == bucket_of(
                        before,
                        rows,
                        m,
                        k,
                        key as nat,
                    ),
            decreases l - t,
        {
            let key: u64 = keys[t];
            let ghost prev = *self;
            let table = &mut self.tables[t];
            let mut bucket: HashTableBucket<u64> = match table.remove(&key) {
                Some(b) => b,
                None => Vec::new(),
            };
            assert(bucket_view(bucket@) == prev.bucket(t as int, key));
            bucket.push(Point { vector: copy_vector(&point), extra_data, id });
            table.insert(key, bucket);
            proof {
                assert forall|k: int, other: u64| 0 <= k < t + 1 implies #[trigger] self.bucket(
                    k,
                    other,
                ) == bucket_of(before.push(pv), rows, m, k, other as nat) by {
                    lemma_bucket_push(before, pv, rows, m, k, other as nat);
                    if k == t {
                        if other == key {
                            assert(self.bucket(k, other) =~= prev.bucket(k, other).push(pv));
                        } else {
                            assert(self.bucket(k, other) == prev.bucket(k, other));
                        }
                    } else {
                        assert(self.bucket(k, other) == prev.bucket(k, other));
                    }
                }
                assert forall|k: int, other: u64| t + 1 <= k < l implies #[trigger] self.bucket(
                    k,
                    other,
                ) == bucket_of(before, rows, m, k, other as nat) by {
                    assert(self.bucket(k, other) == prev.bucket(k, other));
                }
            }
            t = t + 1;
        }
        let ghost filled = *self;
        self.next_id = id + 1;
        self.stored = Ghost(before.push(pv));
        proof {
            assert forall|k: int, key: u64| 0 <= k < l implies #[trigger] self.bucket(k, key)
                == bucket_of(before.push(pv), rows, m, k, key as nat) by {
                assert(self.bucket(k, key) == filled.bucket(k, key));
            }
        }
        Ok(())
    }

    /// The bucket of table `table_index` under `key`: the points stored
    /// there, in insertion order. A key the table does not hold, and a
    /// table the index does not have, give an empty bucket.
    pub fn lookup(&self, table_index: usize, key: u64) -> (bucket: &[Point<u64>])
        requires
            self.wf(),
        ensures
            table_index < self.num_tables() ==> bucket_view(bucket@) == bucket_of(
                self.points(),
                self.hyperplanes(),
                self.bits_per_table(),
                table_index as int,
                key as nat,
            ),
            table_index >= self.num_tables() ==> bucket@.len() == 0,
    {
        if table_index >= self.tables.len() {
            return &[];
        }
        assert(self.bucket(table_index as int, key) == bucket_of(
            self.points(),
            self.hyperplanes(),
            self.bits_per_table(),
            table_index as int,
            key as nat,
        ));
        match self.tables[table_index].get(&key) {
            Some(found) => found.as_slice(),
            None => &[],
        }
    }

    /// The candidate set of the query `q`: the positions, which are the
    /// ids, of the stored points that share a bucket with `q` in some
    /// table.
    pub open spec fn candidates(&self, q: Seq<i32>) -> Set<int> {
        candidate_ids(
            self.hyperplanes(),
            self.num_tables(),
            self.bits_per_table(),
            self.points(),
            q,
        )
    }

    /// `r` reports a candidate of the query `q` faithfully.
    pub open spec fn reports_candidate<'a>(&self, q: Seq<i32>, r: QueryResult<'a, u64>) -> bool {
        &&& self.candidates(q).contains(r.id as int)
        &&& describes(self.points()[r.id as int], q, r)
    }

    /// `r` is the answer to the query `q` for at most `max_result`
    /// results (zero: for all). It is not empty. It holds each candidate
    /// at most once, with its own vector, payload and squared distance,
    /// in ascending order of distance and, at equal distance, of id. It
    /// holds all candidates, or `max_result` of them where there are
    /// more; a candidate left out is no nearer than any that is held.
    pub open spec fn is_answer<'a>(
        &self,
        q: Seq<i32>,
        max_result: usize,
        r: Seq<QueryResult<'a, u64>>,
    ) -> bool {
        &&& r.len() > 0
        &&& r.len() == result_limit(self.candidates(q).len(), max_result)
        &&& strictly_ranked(r)
        &&& ascending_distances(r)
        &&& distinct_ids(r)
        &&& forall|k: int| 0 <= k < r.len() ==> self.reports_candidate(q, #[trigger] r[k])
        &&& forall|n: int, k: int|
            #![trigger self.candidates(q).contains(n), r[k]]
            self.candidates(q).contains(n) && 0 <= k < r.len() && !holds_id(r, n) ==> {
                let d = dist_sq(q, self.points()[n].vector);
                r[k].distance < d || (r[k].distance == d && r[k].id < n)
            }
    }

    /// Finds the stored points nearest to `q` among those that share a
    /// bucket with it, nearest first, at most `max_result` of them
    /// where `max_result` is not zero. Without any such point there is
    /// no result. A vector of another dimension than the index's is
    /// turned away.
    pub fn query(&self, q: Vec<i32>, max_result: usize) -> (r: Result<
        Option<Vec<QueryResult<'_, u64>>>,
        LshError,
    >)
        requires
            self.wf(),
        ensures
            q@.len() != self.dim() ==> r == Err::<Option<Vec<QueryResult<'_, u64>>>, LshError>(
                LshError::DimensionMismatch,
            ),
            q@.len() == self.dim() ==> match r {
                Ok(Some(out)) => self.is_answer(q@, max_result, out@),
                Ok(None) => self.candidates(q@) == Set::<int>::empty(),
                Err(_) => false,
            },
            self.points().len() == 0 && q@.len() == self.dim() ==> r == Ok::<
                Option<Vec<QueryResult<'_, u64>>>,
                LshError,
            >(None),
    {
        if q.len() != self.param.dim as usize {
            return Err(LshError::DimensionMismatch);
        }
        let keys = self.table_keys(q.as_slice());
        let ghost rows = self.param.hyperplanes@;
        let ghost m = self.param.m as int;
        let ghost points = self.stored@;
        let mut seen: HashSet<u64> = HashSet::new();
        let mut found: Vec<QueryResult<'_, u64>> = Vec::new();
        let l: usize = self.tables.len();
        let mut t: usize = 0;
        while t < l
            invariant
                self.wf(),
                t <= l,
                l == self.tables@.len(),
                rows == self.param.hyperplanes@,
                m == self.param.m,
                points == self.stored@,
                keys@.len() == l,
                forall|k: int| 0 <= k < l ==> (#[trigger] keys@[k]) == table_key(rows, m, k, q@),
                distinct_ids(found@),
                forall|i: int|
                    0 <= i < found@.len() ==> self.reports_candidate(q@, #[trigger] found@[i]),
                forall|id: u64| #[trigger] seen@.contains(id) <==> holds_id(found@, id as int),
                forall|k: int, n: int|
                    0 <= k < t && 0 <= n < points.len() && #[trigger] table_key(
                        rows,
                        m,
                        k,
                        points[n].vector,
                    ) == table_key(rows, m, k, q@) ==> holds_id(found@, n),
            decreases l - t,
        {
            let key: u64 = keys[t];
            let ghost in_table = bucket_of(points, rows, m, t as int, key as nat);
            assert(self.bucket(t as int, key) == in_table);
            match self.tables[t].get(&key) {
                Some(bucket) => {
                    assert(bucket_view(bucket@) == in_table);
                    let mut j: usize = 0;
                    while j < bucket.len()
                        invariant
                            self.wf(),
                            t < l,
                            l == self.tables@.len(),
                            rows == self.param.hyperplanes@,
                            m == self.param.m,
                            points == self.stored@,
                            key == table_key(rows, m, t as int, q@),
                            in_table == bucket_of(points, rows, m, t as int, key as nat),
                            bucket_view(bucket@) == in_table,
                            j <= bucket@.len(),
                            distinct_ids(found@),
                            forall|i: int|
                                0 <= i < found@.len() ==> self.reports_candidate(
                                    q@,
                                    #[trigger] found@[i],
                                ),
                            forall|id: u64|
                                #[trigger] seen@.contains(id) <==> holds_id(found@, id as int),
                            forall|k: int, n: int|
                                0 <= k < t && 0 <= n < points.len() && #[trigger] table_key(
                                    rows,
                                    m,
                                    k,
                                    points[n].vector,
                                ) == table_key(rows, m, k, q@) ==> holds_id(found@, n),
                            forall|i: int|
                                0 <= i < j ==> holds_id(found@, (#[trigger] in_table[i]).id as int),
                        decreases bucket@.len() - j,
                    {
                        let p = &bucket[j];
                        let ghost before = found@;
                        proof {
                            crate::model::lemma_bucket_sound(points, rows, m, t as int, key as nat, j as int);
                            assert(in_table[j as int] == p@);
                            assert(points[p.id as int] == p@);
                            assert(collides(rows, l as int, m, p@.vector, q@)) by {
                                assert(table_key(rows, m, t as int, p@.vector) == table_key(
                                    rows,
                                    m,
                                    t as int,
                                    q@,
                                ));
                            }
                        }
                        if !seen.contains(&p.id) {
                            seen.insert(p.id);
                            let distance: u128 = euclidean_dist_square(
                                q.as_slice(),
                                p.vector.as_slice(),
                            );
                            found.push(
                                QueryResult {
                                    distance,
                                    vector: p.vector.as_slice(),
                                    extra_data: p.extra_data,
                                    id: p.id,
                                },
                            );
                            proof {
                                let last = before.len() as int;
                                assert(found@[last].id == p.id);
                                assert forall|id: u64| #[trigger]
                                    seen@.contains(id) <==> holds_id(found@, id as int) by {
                                    if holds_id(before, id as int) {
                                        let w = choose|w: int|
                                            0 <= w < before.len() && (#[trigger] before[w]).id
                                                == id as int;
                                        assert(found@[w].id == id as int);
                                    }
                                    if holds_id(found@, id as int) {
                                        let w = choose|w: int|
                                            0 <= w < found@.len() && (#[trigger] found@[w]).id
                                                == id as int;
                                        if w < last {
                                            assert(before[w].id == id as int);
                                        }
                                    }
                                }
                                assert forall|a: int, b: int| 0 <= a < b < found@.len() implies (
                                    #[trigger] found@[a]).id != (#[trigger] found@[b]).id by {
                                    if b == last {
                                        assert(before[a].id == found@[a].id);
                                        if found@[a].id == p.id {
                                            assert(holds_id(before, p.id as int));
                                        }
                                    } else {
                                        assert(before[a] == found@[a] && before[b] == found@[b]);
                                    }
                                }
                            }
                        }
                        proof {
                            lemma_holds_id_extends(before, found@);
                            assert(holds_id(found@, p.id as int));
                        }
                        j = j + 1;
                    }
                    proof {
                        assert forall|n: int|
                            0 <= n < points.len() && #[trigger] table_key(
                                rows,
                                m,
                                t as int,
                                points[n].vector,
                            ) == table_key(rows, m, t as int, q@) implies holds_id(found@, n) by {
                            crate::model::lemma_bucket_complete(points, rows, m, t as int, n);
                            let i = choose|i: int|
                                0 <= i < in_table.len() && in_table[i] == points[n];
                            assert(holds_id(found@, in_table[i].id as int));
                        }
                    }
                },
                None => {
                    proof {
                        assert(in_table.len() == 0);
                        assert forall|n: int|
                            0 <= n < points.len() && #[trigger] table_key(
                                rows,
                                m,
                                t as int,
                                points[n].vector,
                            ) == table_key(rows, m, t as int, q@) implies holds_id(found@, n) by {
                            crate::model::lemma_bucket_complete(points, rows, m, t as int, n);
                        }
                    }
                },
            }
            t = t + 1;
        }
        let ghost c = found@;
        proof {
            assert forall|n: int| #[trigger] self.candidates(q@).contains(n) implies holds_id(
                c,
                n,
            ) by {
                let k = choose|k: int|
                    0 <= k < l && #[trigger] table_key(rows, m, k, points[n].vector) == table_key(
                        rows,
                        m,
                        k,
                        q@,
                    );
            }
            if c.len() > 0 {
                assert(self.reports_candidate(q@, c[0]));
            }
            self.lemma_found_counts_candidates(q@, c);
        }
        let ranked = rank(found, max_result);
        proof {
            self.lemma_ranking_answers(q@, max_result, c, ranked);
        }
        Ok(ranked)
    }

    /// A query capped below its number of candidates returns exactly as
    /// many results as the cap allows, and no candidate it leaves out is
    /// nearer than any it returns.
    pub proof fn lemma_capped_answer_keeps_nearest<'a>(
        &self,
        q: Seq<i32>,
        max_result: usize,
        r: Seq<QueryResult<'a, u64>>,
    )
        requires
            self.is_answer(q, max_result, r),
            max_result > 0,
            self.candidates(q).len() > max_result,
        ensures
            r.len() == max_result,
            forall|n: int, k: int|
                #![trigger self.candidates(q).contains(n), r[k]]
                self.candidates(q).contains(n) && !holds_id(r, n) && 0 <= k < r.len()
                    ==> r[k].distance <= dist_sq(q, self.points()[n].vector),
    {
    }

    /// A point that collides with the query, in however many tables, is
    /// returned at most once; where the number of results is not capped
    /// below the number of candidates, it is returned exactly once.
    pub proof fn lemma_answer_holds_each_candidate_once<'a>(
        &self,
        q: Seq<i32>,
        max_result: usize,
        r: Seq<QueryResult<'a, u64>>,
    )
        requires
            self.wf(),
            self.is_answer(q, max_result, r),
        ensures
            forall|j: int, k: int|
                0 <= j < r.len() && 0 <= k < r.len() && (#[trigger] r[j]).id == (#[trigger] r[k]).id
                    ==> j == k,
            max_result == 0 || self.candidates(q).len() <= max_result ==> forall|n: int| #[trigger]
                self.candidates(q).contains(n) ==> holds_id(r, n),
    {
        assert forall|j: int, k: int|
            0 <= j < r.len() && 0 <= k < r.len() && (#[trigger] r[j]).id == (#[trigger] r[k]).id implies j
            == k by {
            if j < k {
                assert(r[j].id != r[k].id);
            } else if k < j {
                assert(r[k].id != r[j].id);
            }
        }
        if max_result == 0 || self.candidates(q).len() <= max_result {
            let ids = ids_of(r);
            assert(ids.no_duplicates());
            ids.unique_seq_to_set();
            crate::model::lemma_candidates_finite(
                self.hyperplanes(),
                self.num_tables(),
                self.bits_per_table(),
                self.points(),
                q,
            );
            assert(ids.to_set().subset_of(self.candidates(q))) by {
                assert forall|n: int| ids.to_set().contains(n) implies self.candidates(q).contains(
                    n,
                ) by {
                    let i = choose|i: int| 0 <= i < ids.len() && ids[i] == n;
                    assert(self.reports_candidate(q, r[i]));
                }
            }
            vstd::set_lib::lemma_subset_equality(ids.to_set(), self.candidates(q));
            assert forall|n: int| #[trigger] self.candidates(q).contains(n) implies holds_id(
                r,
                n,
            ) by {
                assert(ids.to_set().contains(n));
                let i = choose|i: int| 0 <= i < ids.len() && ids[i] == n;
                assert(r[i].id == n);
            }
        }
    }

    /// A query for a stored vector finds a point at distance zero first:
    /// the stored point itself, or an equal one inserted before it.
    pub proof fn lemma_stored_vector_is_found_first<'a>(
        &self,
        n: int,
        max_result: usize,
        r: Seq<QueryResult<'a, u64>>,
    )
        requires
            self.wf(),
            0 <= n < self.points().len(),
            self.is_answer(self.points()[n].vector, max_result, r),
        ensures
            r[0].distance == 0,
            r[0].id <= n,
    {
        let q = self.points()[n].vector;
        crate::model::lemma_stored_vector_is_candidate(
            self.hyperplanes(),
            self.num_tables(),
            self.bits_per_table(),
            self.points(),
            n,
        );
        crate::distance::lemma_dist_sq_zero(q, q.len() as int);
        assert(self.candidates(q).contains(n));
        if holds_id(r, n) {
            let j = choose|j: int| 0 <= j < r.len() && (#[trigger] r[j]).id == n;
            assert(self.reports_candidate(q, r[j]));
            if 0 < j {
                assert(ranks_before(r[0], r[j]));
            }
        } else {
            assert(self.candidates(q).contains(n) && 0 <= 0 < r.len() && r[0] == r[0]);
        }
    }

    /// Candidates found without repetition, each a candidate and none
    /// missing, are as many as the candidate set has members.
    proof fn lemma_found_counts_candidates<'a>(&self, q: Seq<i32>, c: Seq<QueryResult<'a, u64>>)
        requires
            self.wf(),
            distinct_ids(c),
            forall|i: int| 0 <= i < c.len() ==> self.reports_candidate(q, #[trigger] c[i]),
            forall|n: int| #[trigger] self.candidates(q).contains(n) ==> holds_id(c, n),
        ensures
            c.len() == self.candidates(q).len(),
            ids_of(c).to_set() == self.candidates(q),
    {
        let ids = ids_of(c);
        assert(ids.no_duplicates()) by {
            assert forall|i: int, j: int|
                0 <= i < ids.len() && 0 <= j < ids.len() && i != j implies ids[i] != ids[j] by {
                if i < j {
                    assert(c[i].id != c[j].id);
                } else {
                    assert(c[j].id != c[i].id);
                }
            }
        }
        ids.unique_seq_to_set();
        assert(ids.to_set() =~= self.candidates(q)) by {
            assert forall|n: int| ids.to_set().contains(n) implies self.candidates(q).contains(
                n,
            ) by {
                let i = choose|i: int| 0 <= i < ids.len() && ids[i] == n;
                assert(self.reports_candidate(q, c[i]));
            }
            assert forall|n: int| self.candidates(q).contains(n) implies ids.to_set().contains(
                n,
            ) by {
                let j = choose|j: int| 0 <= j < c.len() && (#[trigger] c[j]).id == n;
                assert(ids[j] == n);
            }
        }
    }

    /// The ranking of the candidates found is the answer to the query.
    proof fn lemma_ranking_answers<'a>(
        &self,
        q: Seq<i32>,
        max_result: usize,
        c: Seq<QueryResult<'a, u64>>,
        ranked: Option<Vec<QueryResult<'a, u64>>>,
    )
        requires
            self.wf(),
            distinct_ids(c),
            forall|i: int| 0 <= i < c.len() ==> self.reports_candidate(q, #[trigger] c[i]),
            forall|n: int| #[trigger] self.candidates(q).contains(n) ==> holds_id(c, n),
            c.len() == self.candidates(q).len(),
            ids_of(c).to_set() == self.candidates(q),
            c.len() == 0 <==> ranked.is_none(),
            ranked.is_some() ==> is_ranking(c, max_result, ranked.unwrap()@),
        ensures
            match ranked {
                Some(out) => self.is_answer(q, max_result, out@),
                None => self.candidates(q) == Set::<int>::empty(),
            },
    {
        match ranked {
            Some(out) => {
                let r = out@;
                assert forall|k: int| 0 <= k < r.len() implies self.reports_candidate(
                    q,
                    #[trigger] r[k],
                ) by {
                    assert(c.contains(r[k]));
                    let i = choose|i: int| 0 <= i < c.len() && c[i] == r[k];
                    assert(self.reports_candidate(q, c[i]));
                }
                assert forall|n: int, k: int|
                    #![trigger self.candidates(q).contains(n), r[k]]
                    self.candidates(q).contains(n) && 0 <= k < r.len() && !holds_id(r, n) implies {
                    let d = dist_sq(q, self.points()[n].vector);
                    r[k].distance < d || (r[k].distance == d && r[k].id < n)
                } by {
                    let i = choose|i: int| 0 <= i < c.len() && (#[trigger] c[i]).id == n;
                    assert(self.reports_candidate(q, c[i]));
                    if r.contains(c[i]) {
                        let j = choose|j: int| 0 <= j < r.len() && r[j] == c[i];
                        assert(r[j].id == n);
                    }
                    assert(ranks_before(r[k], c[i]));
                }
            },
            None => {
                assert(ids_of(c).to_set() =~= Set::<int>::empty());
            },
        }
    }

    /// The bucket key of `point` in every table.
    fn table_keys(&self, point: &[i32]) -> (keys: Vec<u64>)
        requires
            self.wf(),
        ensures
            keys@.len() == self.num_tables(),
            forall|t: int|
                0 <= t < self.num_tables() ==> (#[trigger] keys@[t]) == table_key(
                    self.hyperplanes(),
                    self.bits_per_table(),
                    t,
                    point@,
                ),
    {
        let chunks = self.param.hash(point);
        proof {
            assert forall|t: int| 0 <= t < chunks@.len() implies (#[trigger] chunks@[t])@.len()
                <= 64 by {
                assert(0 <= t * self.param.m && t * self.param.m + self.param.m <= self.param.l
                    * self.param.m) by (nonlinear_arith)
                    requires
                        0 <= t < self.param.l,
                        1 <= self.param.m,
                ;
            }
        }
        self.to_basic_hash_table_keys(chunks).unwrap()
    }
}

} // verus!
