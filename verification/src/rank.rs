//! Ranking of query candidates: ascending squared distance, ties broken
//! by ascending id, cut to the number of results asked for.

use crate::hash::QueryResult;
use vstd::prelude::*;

verus! {

/// The order in which results are returned: nearer first, and among
/// equally near results the one inserted earlier first.
pub open spec fn ranks_before<'a, T>(a: QueryResult<'a, T>, b: QueryResult<'a, T>) -> bool {
    a.distance < b.distance || (a.distance == b.distance && a.id < b.id)
}

/// No two entries of `s` carry the same id.
pub open spec fn distinct_ids<'a, T>(s: Seq<QueryResult<'a, T>>) -> bool {
    forall|i: int, j: int| 0 <= i < j < s.len() ==> (#[trigger] s[i]).id != (#[trigger] s[j]).id
}

/// Every entry of `s` ranks before every later entry.
pub open spec fn strictly_ranked<'a, T>(s: Seq<QueryResult<'a, T>>) -> bool {
    forall|i: int, j: int|
        0 <= i < j < s.len() ==> ranks_before(#[trigger] s[i], #[trigger] s[j])
}

/// Distances never decrease along `s`.
pub open spec fn ascending_distances<'a, T>(s: Seq<QueryResult<'a, T>>) -> bool {
    forall|i: int, j: int|
        0 <= i < j < s.len() ==> (#[trigger] s[i]).distance <= (#[trigger] s[j]).distance
}

/// How many of `n` candidates are returned when `max_result` are asked
/// for; zero asks for all of them.
pub open spec fn result_limit(n: nat, max_result: usize) -> nat {
    if max_result > 0 && n > max_result {
        max_result as nat
    } else {
        n
    }
}

/// `out` is the ranking of the candidates `c` cut to `max_result`: it
/// holds the right number of candidates in rank order, and whatever it
/// leaves out ranks after everything it holds.
pub open spec fn is_ranking<'a, T>(
    c: Seq<QueryResult<'a, T>>,
    max_result: usize,
    out: Seq<QueryResult<'a, T>>,
) -> bool {
    &&& out.len() == result_limit(c.len(), max_result)
    &&& strictly_ranked(out)
    &&& ascending_distances(out)
    &&& distinct_ids(out)
    &&& forall|k: int| 0 <= k < out.len() ==> c.contains(#[trigger] out[k])
    &&& forall|i: int, k: int|
        0 <= i < c.len() && 0 <= k < out.len() && !out.contains(c[i]) ==> ranks_before(
            #[trigger] out[k],
            #[trigger] c[i],
        )
}

/// Along a strictly ranked sequence distances never decrease.
pub proof fn lemma_ranked_is_ascending<'a, T>(s: Seq<QueryResult<'a, T>>)
    requires
        strictly_ranked(s),
    ensures
        ascending_distances(s),
{
}

/// Entries picked from candidates with distinct ids and ranked strictly
/// carry distinct ids themselves: no candidate is returned twice.
pub proof fn lemma_ranked_has_distinct_ids<'a, T>(
    c: Seq<QueryResult<'a, T>>,
    out: Seq<QueryResult<'a, T>>,
)
    requires
        distinct_ids(c),
        strictly_ranked(out),
        forall|k: int| 0 <= k < out.len() ==> c.contains(#[trigger] out[k]),
    ensures
        distinct_ids(out),
{
    assert forall|i: int, j: int| 0 <= i < j < out.len() implies (#[trigger] out[i]).id != (
    #[trigger] out[j]).id by {
        assert(c.contains(out[i]));
        assert(c.contains(out[j]));
        let a = choose|a: int| 0 <= a < c.len() && c[a] == out[i];
        let b = choose|b: int| 0 <= b < c.len() && c[b] == out[j];
        assert(ranks_before(out[i], out[j]));
        if a < b {
            assert(c[a].id != c[b].id);
        } else if b < a {
            assert(c[b].id != c[a].id);
        }
    }
}

/// Tells whether `a` is returned before `b`.
pub fn comes_before<'a, T>(a: &QueryResult<'a, T>, b: &QueryResult<'a, T>) -> (r: bool)
    ensures
        r == ranks_before(*a, *b),
{
    a.distance < b.distance || (a.distance == b.distance && a.id < b.id)
}

/// Every entry of `s` ranks after every later entry.
pub open spec fn ranked_descending<'a, T>(s: Seq<QueryResult<'a, T>>) -> bool {
    forall|i: int, j: int|
        0 <= i < j < s.len() ==> ranks_before(#[trigger] s[j], #[trigger] s[i])
}

/// Merges two ranked runs into one run in descending rank, taking the
/// later-ranked tail of the two at each step.
fn merge_descending<'a, T>(left: Vec<QueryResult<'a, T>>, right: Vec<QueryResult<'a, T>>) -> (out:
    Vec<QueryResult<'a, T>>)
    requires
        strictly_ranked(left@),
        strictly_ranked(right@),
        forall|i: int, j: int|
            0 <= i < left@.len() && 0 <= j < right@.len() ==> (#[trigger] left@[i]).id != (
            #[trigger] right@[j]).id,
    ensures
        out@.len() == left@.len() + right@.len(),
        ranked_descending(out@),
        forall|k: int|
            0 <= k < out@.len() ==> left@.contains(#[trigger] out@[k]) || right@.contains(out@[k]),
        forall|i: int| 0 <= i < left@.len() ==> out@.contains(#[trigger] left@[i]),
        forall|i: int| 0 <= i < right@.len() ==> out@.contains(#[trigger] right@[i]),
{
    let ghost a0 = left@;
    let ghost b0 = right@;
    let mut a = left;
    let mut b = right;
    let mut out: Vec<QueryResult<'a, T>> = Vec::new();
    while a.len() > 0 || b.len() > 0
        invariant
            strictly_ranked(a0),
            strictly_ranked(b0),
            forall|i: int, j: int|
                0 <= i < a0.len() && 0 <= j < b0.len() ==> (#[trigger] a0[i]).id != (
                #[trigger] b0[j]).id,
            a@.len() <= a0.len(),
            b@.len() <= b0.len(),
            a@ == a0.subrange(0, a@.len() as int),
            b@ == b0.subrange(0, b@.len() as int),
            out@.len() == (a0.len() - a@.len()) + (b0.len() - b@.len()),
            ranked_descending(out@),
            forall|k: int, i: int|
                0 <= k < out@.len() && 0 <= i < a@.len() ==> ranks_before(
                    #[trigger] a0[i],
                    #[trigger] out@[k],
                ),
            forall|k: int, i: int|
                0 <= k < out@.len() && 0 <= i < b@.len() ==> ranks_before(
                    #[trigger] b0[i],
                    #[trigger] out@[k],
                ),
            forall|k: int|
                0 <= k < out@.len() ==> a0.contains(#[trigger] out@[k]) || b0.contains(out@[k]),
            forall|i: int| a@.len() <= i < a0.len() ==> out@.contains(#[trigger] a0[i]),
            forall|i: int| b@.len() <= i < b0.len() ==> out@.contains(#[trigger] b0[i]),
        decreases a@.len() + b@.len(),
    {
        let from_left: bool = if b.len() == 0 {
            true
        } else if a.len() == 0 {
            false
        } else {
            comes_before(&b[b.len() - 1], &a[a.len() - 1])
        };
        let ghost before = out@;
        let ghost na = a@.len() as int;
        let ghost nb = b@.len() as int;
        if from_left {
            let x = a.pop().unwrap();
            assert(x == a0[na - 1]);
            proof {
                assert forall|i: int| 0 <= i < nb implies ranks_before(#[trigger] b0[i], x) by {
                    assert(ranks_before(b0[nb - 1], a0[na - 1]));
                    if i < nb - 1 {
                        assert(ranks_before(b0[i], b0[nb - 1]));
                    }
                }
            }
            out.push(x);
        } else {
            let x = b.pop().unwrap();
            assert(x == b0[nb - 1]);
            proof {
                assert forall|i: int| 0 <= i < na implies ranks_before(#[trigger] a0[i], x) by {
                    assert(a0[na - 1].id != b0[nb - 1].id);
                    assert(ranks_before(a0[na - 1], b0[nb - 1]));
                    if i < na - 1 {
                        assert(ranks_before(a0[i], a0[na - 1]));
                    }
                }
            }
            out.push(x);
        }
        proof {
            let after = out@;
            let x = after[before.len() as int];
            assert forall|i: int, j: int| 0 <= i < j < after.len() implies ranks_before(
                #[trigger] after[j],
                #[trigger] after[i],
            ) by {
                assert(after[i] == before[i]);
                if j < before.len() {
                    assert(after[j] == before[j]);
                }
            }
            assert forall|k: int, i: int| 0 <= k < after.len() && 0 <= i < a@.len() implies ranks_before(
                #[trigger] a0[i],
                #[trigger] after[k],
            ) by {
                if k < before.len() {
                    assert(after[k] == before[k]);
                }
            }
            assert forall|k: int, i: int| 0 <= k < after.len() && 0 <= i < b@.len() implies ranks_before(
                #[trigger] b0[i],
                #[trigger] after[k],
            ) by {
                if k < before.len() {
                    assert(after[k] == before[k]);
                }
            }
            assert forall|k: int| 0 <= k < after.len() implies a0.contains(#[trigger] after[k])
                || b0.contains(after[k]) by {
                if k < before.len() {
                    assert(after[k] == before[k]);
                }
            }
            assert forall|i: int| a@.len() <= i < a0.len() implies after.contains(
                #[trigger] a0[i],
            ) by {
                if i < na {
                    assert(after[before.len() as int] == a0[i]);
                } else {
                    let k = choose|k: int| 0 <= k < before.len() && before[k] == a0[i];
                    assert(after[k] == a0[i]);
                }
            }
            assert forall|i: int| b@.len() <= i < b0.len() implies after.contains(
                #[trigger] b0[i],
            ) by {
                if i < nb {
                    assert(after[before.len() as int] == b0[i]);
                } else {
                    let k = choose|k: int| 0 <= k < before.len() && before[k] == b0[i];
                    assert(after[k] == b0[i]);
                }
            }
        }
    }
    out
}

/// Turns a run around: the last entry comes first.
fn reversed<'a, T>(run: Vec<QueryResult<'a, T>>) -> (out: Vec<QueryResult<'a, T>>)
    ensures
        out@.len() == run@.len(),
        forall|i: int| 0 <= i < out@.len() ==> #[trigger] out@[i] == run@[run@.len() - 1 - i],
{
    let ghost all = run@;
    let mut rest = run;
    let mut out: Vec<QueryResult<'a, T>> = Vec::with_capacity(rest.len());
    while rest.len() > 0
        invariant
            rest@.len() <= all.len(),
            rest@ == all.subrange(0, rest@.len() as int),
            out@.len() == all.len() - rest@.len(),
            forall|i: int| 0 <= i < out@.len() ==> #[trigger] out@[i] == all[all.len() - 1 - i],
        decreases rest@.len(),
    {
        let x = rest.pop().unwrap();
        out.push(x);
    }
    out
}

/// Orders candidates by rank.
pub fn sort_candidates<'a, T>(candidates: Vec<QueryResult<'a, T>>) -> (out: Vec<
    QueryResult<'a, T>,
>)
    requires
        distinct_ids(candidates@),
    ensures
        out@.len() == candidates@.len(),
        strictly_ranked(out@),
        forall|k: int| 0 <= k < out@.len() ==> candidates@.contains(#[trigger] out@[k]),
        forall|i: int| 0 <= i < candidates@.len() ==> out@.contains(#[trigger] candidates@[i]),
    decreases candidates@.len(),
{
    if candidates.len() <= 1 {
        return candidates;
    }
    let ghost all = candidates@;
    let mid: usize = candidates.len() / 2;
    let mut head = candidates;
    let tail = head.split_off(mid);
    let ghost h0 = head@;
    let ghost t0 = tail@;
    proof {
        assert forall|i: int, j: int| 0 <= i < j < h0.len() implies (#[trigger] h0[i]).id != (
        #[trigger] h0[j]).id by {
            assert(h0[i] == all[i] && h0[j] == all[j]);
        }
        assert forall|i: int, j: int| 0 <= i < j < t0.len() implies (#[trigger] t0[i]).id != (
        #[trigger] t0[j]).id by {
            assert(t0[i] == all[mid + i] && t0[j] == all[mid + j]);
        }
    }
    let left = sort_candidates(head);
    let right = sort_candidates(tail);
    proof {
        assert forall|i: int, j: int| 0 <= i < left@.len() && 0 <= j < right@.len() implies (
        #[trigger] left@[i]).id != (#[trigger] right@[j]).id by {
            assert(h0.contains(left@[i]));
            assert(t0.contains(right@[j]));
            let a = choose|a: int| 0 <= a < h0.len() && h0[a] == left@[i];
            let b = choose|b: int| 0 <= b < t0.len() && t0[b] == right@[j];
            assert(h0[a] == all[a] && t0[b] == all[mid + b]);
            assert(all[a].id != all[mid + b].id);
        }
    }
    let merged = merge_descending(left, right);
    let out = reversed(merged);
    proof {
        let n = merged@.len() as int;
        assert forall|i: int, j: int| 0 <= i < j < out@.len() implies ranks_before(
            #[trigger] out@[i],
            #[trigger] out@[j],
        ) by {
            assert(out@[i] == merged@[n - 1 - i] && out@[j] == merged@[n - 1 - j]);
        }
        assert forall|k: int| 0 <= k < out@.len() implies all.contains(#[trigger] out@[k]) by {
            let x = merged@[n - 1 - k];
            assert(out@[k] == x);
            if left@.contains(x) {
                assert(h0.contains(x));
                let a = choose|a: int| 0 <= a < h0.len() && h0[a] == x;
                assert(all[a] == x);
            } else {
                assert(right@.contains(x));
                assert(t0.contains(x));
                let b = choose|b: int| 0 <= b < t0.len() && t0[b] == x;
                assert(all[mid + b] == x);
            }
        }
        assert forall|i: int| 0 <= i < all.len() implies out@.contains(#[trigger] all[i]) by {
            if i < mid {
                assert(h0[i] == all[i]);
                assert(left@.contains(h0[i]));
                let a = choose|a: int| 0 <= a < left@.len() && left@[a] == all[i];
                assert(merged@.contains(left@[a]));
            } else {
                assert(t0[i - mid] == all[i]);
                assert(right@.contains(t0[i - mid]));
                let b = choose|b: int| 0 <= b < right@.len() && right@[b] == all[i];
                assert(merged@.contains(right@[b]));
            }
            let k = choose|k: int| 0 <= k < merged@.len() && merged@[k] == all[i];
            assert(out@[n - 1 - k] == all[i]);
        }
    }
    out
}

/// Ranks the candidates of a query and keeps the best `max_result` of
/// them, or all of them when `max_result` is zero. No candidates, no
/// result.
pub fn rank<'a, T>(candidates: Vec<QueryResult<'a, T>>, max_result: usize) -> (r: Option<
    Vec<QueryResult<'a, T>>,
>)
    requires
        distinct_ids(candidates@),
    ensures
        candidates@.len() == 0 <==> r.is_none(),
        r.is_some() ==> is_ranking(candidates@, max_result, r.unwrap()@),
{
    let ghost c = candidates@;
    if candidates.len() == 0 {
        return None;
    }
    let mut out = sort_candidates(candidates);
    let ghost full = out@;
    if max_result > 0 && out.len() > max_result {
        out.truncate(max_result);
    }
    proof {
        let cut = out@;
        assert(cut == full.subrange(0, cut.len() as int));
        assert forall|k: int| 0 <= k < cut.len() implies c.contains(#[trigger] cut[k]) by {
            assert(cut[k] == full[k]);
        }
        assert forall|i: int, k: int|
            0 <= i < c.len() && 0 <= k < cut.len() && !cut.contains(c[i]) implies ranks_before(
            #[trigger] cut[k],
            #[trigger] c[i],
        ) by {
            assert(full.contains(c[i]));
            let j = choose|j: int| 0 <= j < full.len() && full[j] == c[i];
            if j < cut.len() {
                assert(cut[j] == c[i]);
            }
            assert(cut[k] == full[k]);
            assert(ranks_before(full[k], full[j]));
        }
        assert(strictly_ranked(cut)) by {
            assert forall|i: int, j: int| 0 <= i < j < cut.len() implies ranks_before(
                #[trigger] cut[i],
                #[trigger] cut[j],
            ) by {
                assert(cut[i] == full[i] && cut[j] == full[j]);
            }
        }
        lemma_ranked_has_distinct_ids(c, cut);
    }
    Some(out)
}

} // verus!
