//! Bucket keys: a signature is cut into one chunk of bits per table and
//! each chunk is read as a binary numeral, first bit most significant.

use crate::hash::{signature_bits, HashTableKey};
use vstd::prelude::*;

verus! {

/// Largest number of bits whose binary value always fits a `u64` key.
pub const MAX_KEY_BITS: usize = 64;

/// The value of `bits` read as a base-2 numeral: bit `j` of an
/// `n`-bit chunk weighs `2^(n-1-j)`.
pub open spec fn bits_value(bits: Seq<bool>) -> nat
    decreases bits.len(),
{
    if bits.len() == 0 {
        0
    } else {
        2 * bits_value(bits.drop_last()) + (if bits.last() {
            1nat
        } else {
            0nat
        })
    }
}

/// Two to the power `n`.
pub open spec fn pow2(n: nat) -> nat
    decreases n,
{
    if n == 0 {
        1
    } else {
        2 * pow2((n - 1) as nat)
    }
}

/// Chunk `t` of a signature cut into chunks of `m` bits.
pub open spec fn chunk(sig: Seq<bool>, t: int, m: int) -> Seq<bool> {
    sig.subrange(t * m, t * m + m)
}

/// The bucket key of `v` in table `t`, for tables of `m` bits each.
pub open spec fn table_key(rows: Seq<Seq<i32>>, m: int, t: int, v: Seq<i32>) -> nat {
    bits_value(chunk(signature_bits(rows, v), t, m))
}

/// An `n`-bit numeral is below `2^n`.
pub proof fn lemma_bits_value_bound(bits: Seq<bool>)
    ensures
        bits_value(bits) < pow2(bits.len()),
    decreases bits.len(),
{
    if bits.len() > 0 {
        lemma_bits_value_bound(bits.drop_last());
    }
}

/// `2^n` grows with `n`.
pub proof fn lemma_pow2_monotonic(a: nat, b: nat)
    requires
        a <= b,
    ensures
        pow2(a) <= pow2(b),
    decreases b,
{
    if a < b {
        lemma_pow2_monotonic(a, (b - 1) as nat);
    }
}

/// `2^64` is one more than the largest `u64`.
pub proof fn lemma_pow2_64()
    ensures
        pow2(64) == 0x1_0000_0000_0000_0000,
{
    reveal_with_fuel(pow2, 65);
}

/// Reads `bits` as a binary numeral. Succeeds exactly when there are at
/// most 64 bits.
pub fn bucket_key(bits: &Vec<bool>) -> (key: Option<u64>)
    ensures
        bits@.len() <= MAX_KEY_BITS <==> key.is_some(),
        key.is_some() ==> key.unwrap() == bits_value(bits@),
{
    if bits.len() > MAX_KEY_BITS {
        return None;
    }
    let mut acc: u64 = 0;
    let mut j: usize = 0;
    while j < bits.len()
        invariant
            j <= bits@.len(),
            bits@.len() <= 64,
            acc == bits_value(bits@.subrange(0, j as int)),
        decreases bits@.len() - j,
    {
        proof {
            let next = bits@.subrange(0, j + 1);
            assert(next.drop_last() =~= bits@.subrange(0, j as int));
            lemma_bits_value_bound(next);
            lemma_pow2_monotonic(next.len(), 64);
            lemma_pow2_64();
        }
        let low: u64 = if bits[j] {
            1
        } else {
            0
        };
        acc = 2 * acc + low;
        j = j + 1;
    }
    assert(bits@.subrange(0, j as int) =~= bits@);
    Some(acc)
}

/// Cuts `sig` into `l` chunks of `m` bits, chunk `t` holding bits
/// `t*m .. t*m+m`.
pub fn split_signature(sig: &Vec<bool>, l: usize, m: usize) -> (keys: Vec<HashTableKey>)
    requires
        l * m <= sig@.len(),
    ensures
        keys@.len() == l,
        forall|t: int| 0 <= t < l ==> (#[trigger] keys@[t])@ == chunk(sig@, t, m as int),
{
    let n: usize = sig.len();
    let mut keys: Vec<HashTableKey> = Vec::with_capacity(l);
    let mut t: usize = 0;
    while t < l
        invariant
            t <= l,
            n == sig@.len(),
            l * m <= sig@.len(),
            keys@.len() == t,
            forall|k: int| 0 <= k < t ==> (#[trigger] keys@[k])@ == chunk(sig@, k, m as int),
        decreases l - t,
    {
        assert(t * m + m <= l * m) by (nonlinear_arith)
            requires
                t < l,
        ;
        let start: usize = t * m;
        let mut s: Vec<bool> = Vec::with_capacity(m);
        let mut j: usize = 0;
        while j < m
            invariant
                j <= m,
                start == t * m,
                n == sig@.len(),
                start + m <= sig@.len(),
                s@ == sig@.subrange(start as int, start + j),
            decreases m - j,
        {
            s.push(sig[start + j]);
            assert(s@ =~= sig@.subrange(start as int, start + j + 1));
            j = j + 1;
        }
        keys.push(s);
        t = t + 1;
    }
    keys
}

} // verus!
