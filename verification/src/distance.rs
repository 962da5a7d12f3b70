//! Squared Euclidean distance between integer-coordinate vectors.

use crate::hash::common_len;
use vstd::prelude::*;

verus! {

/// Sum of the squared differences of the first `n` coordinates.
pub open spec fn dist_sq_upto(a: Seq<i32>, b: Seq<i32>, n: int) -> int
    decreases n,
{
    if n <= 0 {
        0
    } else {
        dist_sq_upto(a, b, n - 1) + (b[n - 1] - a[n - 1]) * (b[n - 1] - a[n - 1])
    }
}

/// Squared Euclidean distance between `a` and `b`, taken over the
/// coordinates both have.
pub open spec fn dist_sq(a: Seq<i32>, b: Seq<i32>) -> int {
    dist_sq_upto(a, b, common_len(a, b))
}

proof fn lemma_square_bound(d: int)
    requires
        -0xffff_ffff <= d <= 0xffff_ffff,
    ensures
        0 <= d * d <= 0xffff_fffe_0000_0001,
{
    assert(0 <= d * d <= 0xffff_fffe_0000_0001) by (nonlinear_arith)
        requires
            -0xffff_ffff <= d <= 0xffff_ffff,
    ;
}

proof fn lemma_sum_fits(k: int)
    requires
        0 <= k < 0xffff_ffff_ffff_ffff,
    ensures
        (k + 1) * 0xffff_fffe_0000_0001 <= u128::MAX,
        (k + 1) * 0xffff_fffe_0000_0001 == k * 0xffff_fffe_0000_0001 + 0xffff_fffe_0000_0001,
{
}

/// A vector is at distance zero from itself.
pub proof fn lemma_dist_sq_zero(a: Seq<i32>, n: int)
    ensures
        dist_sq_upto(a, a, n) == 0,
    decreases n,
{
    if n > 0 {
        lemma_dist_sq_zero(a, n - 1);
    }
}

/// Computes the squared Euclidean distance between `a` and `b`. Where
/// one is longer, its surplus coordinates are left out.
pub fn euclidean_dist_square(a: &[i32], b: &[i32]) -> (d: u128)
    ensures
        d == dist_sq(a@, b@),
{
    let n: usize = if a.len() <= b.len() {
        a.len()
    } else {
        b.len()
    };
    let mut acc: u128 = 0;
    let mut k: usize = 0;
    while k < n
        invariant
            k <= n,
            n == common_len(a@, b@),
            acc == dist_sq_upto(a@, b@, k as int),
            acc <= k * 0xffff_fffe_0000_0001,
        decreases n - k,
    {
        let diff: i64 = (b[k] as i64) - (a[k] as i64);
        let wide: i128 = diff as i128;
        proof {
            lemma_square_bound(diff as int);
            lemma_sum_fits(k as int);
        }
        let square: u128 = (wide * wide) as u128;
        acc = acc + square;
        k = k + 1;
    }
    acc
}

} // verus!
