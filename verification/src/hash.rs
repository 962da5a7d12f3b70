//! Hyperplanes, signatures and the records the index stores and returns.

use rand::Rng;
use std::collections::HashMap;
use vstd::prelude::*;

verus! {

/// One bit per hyperplane, in hyperplane order.
pub struct Signature(pub Vec<bool>);

/// The bits of a signature that select a bucket in one table.
pub type HashTableKey = Vec<bool>;

/// A stored vector with its payload and the id the index gave it.
#[derive(Debug, Clone)]
pub struct Point<T> {
    pub vector: Vec<i32>,
    pub extra_data: T,
    pub id: u64,
}

/// One ranked answer of a query. `distance` is the squared Euclidean
/// distance between the query and `vector`; no square root is taken.
#[derive(Debug, Clone)]
pub struct QueryResult<'a, T> {
    pub distance: u128,
    pub vector: &'a [i32],
    pub extra_data: T,
    pub id: u64,
}

pub type HashTableBucket<T> = Vec<Point<T>>;

pub type HashTable<T> = HashMap<u64, HashTableBucket<T>>;

/// A matrix of hyperplane normals, one row per signature bit.
pub struct Hyperlanes(Vec<Vec<i32>>);

/// The signature of one vector under one set of hyperplanes.
pub struct Hash {
    pub sig: Signature,
}

/// Sum of the first `n` coordinate products of `h` and `v`.
pub open spec fn dot_upto(h: Seq<i32>, v: Seq<i32>, n: int) -> int
    decreases n,
{
    if n <= 0 {
        0
    } else {
        dot_upto(h, v, n - 1) + h[n - 1] * v[n - 1]
    }
}

/// Number of coordinates two vectors share.
pub open spec fn common_len(a: Seq<i32>, b: Seq<i32>) -> int {
    if a.len() <= b.len() {
        a.len() as int
    } else {
        b.len() as int
    }
}

/// Dot product of `h` and `v` over the coordinates both have.
pub open spec fn dot(h: Seq<i32>, v: Seq<i32>) -> int {
    dot_upto(h, v, common_len(h, v))
}

/// The signature of `v`: bit `i` tells whether `v` lies on the
/// non-negative side of hyperplane `i`.
pub open spec fn signature_bits(rows: Seq<Seq<i32>>, v: Seq<i32>) -> Seq<bool> {
    Seq::new(rows.len(), |i: int| dot(rows[i], v) >= 0)
}

/// `s` has one bit per hyperplane and each bit is the sign test of the
/// corresponding projection of `v`.
pub open spec fn is_signature(rows: Seq<Seq<i32>>, v: Seq<i32>, s: Seq<bool>) -> bool {
    &&& s.len() == rows.len()
    &&& forall|i: int| 0 <= i < rows.len() ==> s[i] == (dot(rows[i], v) >= 0)
}

/// Hashing is a function of the hyperplanes and the vector: any two
/// signatures of the same vector under the same hyperplanes are equal.
pub proof fn lemma_signature_deterministic(
    rows: Seq<Seq<i32>>,
    v: Seq<i32>,
    s1: Seq<bool>,
    s2: Seq<bool>,
)
    requires
        is_signature(rows, v, s1),
        is_signature(rows, v, s2),
    ensures
        s1 == s2,
        s1 == signature_bits(rows, v),
{
    assert(s1 =~= s2);
    assert(s1 =~= signature_bits(rows, v));
}

proof fn lemma_product_bound(a: int, b: int)
    requires
        -0x8000_0000 <= a <= 0x7fff_ffff,
        -0x8000_0000 <= b <= 0x7fff_ffff,
    ensures
        -0x4000_0000_0000_0000 <= a * b <= 0x4000_0000_0000_0000,
{
    assert(-0x4000_0000_0000_0000 <= a * b <= 0x4000_0000_0000_0000) by (nonlinear_arith)
        requires
            -0x8000_0000 <= a <= 0x7fff_ffff,
            -0x8000_0000 <= b <= 0x7fff_ffff,
    ;
}

/// Computes the dot product of `h` and `v` over their common coordinates.
pub fn dot_product(h: &[i32], v: &[i32]) -> (d: i128)
    ensures
        d == dot(h@, v@),
{
    let n: usize = if h.len() <= v.len() {
        h.len()
    } else {
        v.len()
    };
    let mut acc: i128 = 0;
    let mut k: usize = 0;
    while k < n
        invariant
            k <= n,
            n == common_len(h@, v@),
            acc == dot_upto(h@, v@, k as int),
            -(k * 0x4000_0000_0000_0000) <= acc <= k * 0x4000_0000_0000_0000,
        decreases n - k,
    {
        proof {
            lemma_product_bound(h@[k as int] as int, v@[k as int] as int);
        }
        let term: i128 = (h[k] as i128) * (v[k] as i128);
        acc = acc + term;
        k = k + 1;
    }
    acc
}

impl View for Hyperlanes {
    type V = Seq<Seq<i32>>;

    closed spec fn view(&self) -> Seq<Seq<i32>> {
        Seq::new(self.0@.len(), |i: int| self.0@[i]@)
    }
}

/// `rows` is a `d` by `s` matrix.
pub open spec fn has_shape(rows: Seq<Seq<i32>>, d: int, s: int) -> bool {
    &&& rows.len() == d
    &&& forall|i: int| 0 <= i < rows.len() ==> (#[trigger] rows[i]).len() == s
}

/// The rows of `m` as sequences.
pub open spec fn matrix_view(m: Seq<Vec<i32>>) -> Seq<Seq<i32>> {
    Seq::new(m.len(), |i: int| m[i]@)
}

/// Draws one coordinate from the thread-local generator of `rand`, by
/// `rand::thread_rng().gen::<i32>()`. Nothing is claimed of the value
/// drawn. The generator panics if it cannot seed itself from the
/// operating system.
#[verifier::external_body]
fn random_coordinate() -> (x: i32) {
    rand::thread_rng().gen::<i32>()
}

impl Hyperlanes {
    /// Draws a `d` by `s` matrix of random coordinates.
    pub fn new(d: i64, s: i64) -> (hs: Hyperlanes)
        requires
            1 <= d <= usize::MAX,
            1 <= s <= usize::MAX,
        ensures
            has_shape(hs@, d as int, s as int),
    {
        let rows: usize = d as usize;
        let cols: usize = s as usize;
        let mut m: Vec<Vec<i32>> = Vec::with_capacity(rows);
        let mut i: usize = 0;
        while i < rows
            invariant
                i <= rows,
                m@.len() == i,
                forall|k: int| 0 <= k < i ==> (#[trigger] m@[k])@.len() == cols,
            decreases rows - i,
        {
            let mut row: Vec<i32> = Vec::with_capacity(cols);
            let mut j: usize = 0;
            while j < cols
                invariant
                    j <= cols,
                    row@.len() == j,
                decreases cols - j,
            {
                row.push(random_coordinate());
                j = j + 1;
            }
            m.push(row);
            i = i + 1;
        }
        Hyperlanes(m)
    }

    /// Takes the given rows as the hyperplanes.
    pub fn from_rows(rows: Vec<Vec<i32>>) -> (hs: Hyperlanes)
        ensures
            hs@ == matrix_view(rows@),
    {
        Hyperlanes(rows)
    }

    /// Number of hyperplanes.
    pub fn rows(&self) -> (n: usize)
        ensures
            n == self@.len(),
    {
        self.0.len()
    }

    /// The normal vector of hyperplane `i`.
    pub fn row(&self, i: usize) -> (r: &[i32])
        requires
            i < self@.len(),
        ensures
            r@ == self@[i as int],
    {
        self.0[i].as_slice()
    }

    /// Tells whether the matrix has exactly `d` rows of `s` coordinates.
    pub fn is_matrix(&self, d: usize, s: usize) -> (b: bool)
        ensures
            b == has_shape(self@, d as int, s as int),
    {
        if self.0.len() != d {
            return false;
        }
        let mut i: usize = 0;
        while i < d
            invariant
                i <= d,
                self.0@.len() == d,
                forall|k: int| 0 <= k < i ==> (#[trigger] self@[k]).len() == s,
            decreases d - i,
        {
            if self.0[i].len() != s {
                assert(self@[i as int].len() != s);
                return false;
            }
            i = i + 1;
        }
        true
    }
}

impl Signature {
    /// Projects `e` on every hyperplane and records the sign of each
    /// projection.
    pub fn new(hs: &Hyperlanes, e: &[i32]) -> (sig: Signature)
        ensures
            sig.0@ == signature_bits(hs@, e@),
    {
        let mut bits: Vec<bool> = Vec::with_capacity(hs.0.len());
        let mut i: usize = 0;
        while i < hs.0.len()
            invariant
                i <= hs.0@.len(),
                bits@.len() == i,
                forall|j: int| 0 <= j < i ==> bits@[j] == (dot(hs@[j], e@) >= 0),
            decreases hs.0@.len() - i,
        {
            let d: i128 = dot_product(hs.0[i].as_slice(), e);
            bits.push(d >= 0);
            i = i + 1;
        }
        assert(bits@ =~= signature_bits(hs@, e@));
        Signature(bits)
    }
}

impl Hash {
    /// Hashes `e` under the hyperplanes `hs`.
    pub fn new(hs: &Hyperlanes, e: &[i32]) -> (h: Hash)
        ensures
            h.sig.0@ == signature_bits(hs@, e@),
    {
        Hash { sig: Signature::new(hs, e) }
    }
}

} // verus!
