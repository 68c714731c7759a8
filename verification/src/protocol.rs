//! Client-side selection logic for the two-round protocol: sizing a
//! plaintext probe to a database, ranking the recovered score vector, and
//! picking the records to fetch.
//!
//! Scores are residues modulo the plaintext modulus; a residue in the
//! upper half stands for a negative dot product, so ranking compares the
//! centered representatives. The best score wins and ties break toward
//! the lowest index.

use vstd::prelude::*;
use vstd::set_lib::{lemma_int_range, lemma_len_subset};


use crate::params::PirError;

verus! {

/// The signed value a score residue stands for: residues in the upper
/// half of the plaintext range are negative.
pub open spec fn score_val(x: u64, p: u64) -> int {
    if x < p / 2 {
        x as int
    } else {
        x as int - p
    }
}

/// The strict ranking between two score indices: a larger signed score
/// wins, and equal scores go to the lower index.
pub open spec fn ranks_before(scores: Seq<u64>, p: u64, i: int, j: int) -> bool {
    ||| score_val(scores[i], p) > score_val(scores[j], p)
    ||| (score_val(scores[i], p) == score_val(scores[j], p) && i < j)
}

/// Pads a vector with zeros or truncates it to the requested length, so a
/// probe always matches the database's side length.
pub fn adjust_embedding(v: &Vec<u64>, m: usize) -> (r: Vec<u64>)
    ensures
        r@.len() == m,
        forall|t: int| 0 <= t < m && t < v@.len() ==> #[trigger] r@[t] == v@[t],
        forall|t: int| v@.len() <= t < m ==> #[trigger] r@[t] == 0,
{
    let mut out: Vec<u64> = Vec::new();
    let mut t: usize = 0;
    while t < m
        invariant
            t <= m,
            out@.len() == t,
            forall|i: int| 0 <= i < t && i < v@.len() ==> #[trigger] out@[i] == v@[i],
            forall|i: int| v@.len() <= i < t ==> #[trigger] out@[i] == 0,
        decreases m - t,
    {
        if t < v.len() {
            out.push(v[t]);
        } else {
            out.push(0);
        }
        t += 1;
    }
    out
}

/// The signed value of a score residue, as a run-time integer.
pub fn centered_score(x: u64, p: u64) -> (r: i64)
    requires
        x < p,
        p <= 0x10_0000,
    ensures
        r as int == score_val(x, p),
{
    if x < p / 2 {
        x as i64
    } else {
        (x as i64) - (p as i64)
    }
}

/// Picks the best-scoring record among the first `count` scores: the
/// result ranks before every other candidate, so the maximum signed score
/// wins and ties break toward the lowest index.
pub fn find_closest_index(scores: &Vec<u64>, count: usize, plain_mod: u64) -> (r: Result<
    usize,
    PirError,
>)
    requires
        plain_mod <= 0x10_0000,
        forall|t: int| 0 <= t < scores@.len() ==> #[trigger] scores@[t] < plain_mod,
    ensures
        match r {
            Ok(best) => {
                &&& 1 <= count <= scores@.len()
                &&& best < count
                &&& forall|j: int|
                    0 <= j < count && j != best ==> ranks_before(
                        scores@,
                        plain_mod,
                        best as int,
                        j,
                    )
            },
            Err(e) => {
                &&& e == PirError::DimensionMismatch
                &&& (count < 1 || count > scores@.len())
            },
        },
{
    if count < 1 || count > scores.len() {
        return Err(PirError::DimensionMismatch);
    }
    let mut best: usize = 0;
    let mut best_score: i64 = centered_score(scores[0], plain_mod);
    let mut t: usize = 1;
    while t < count
        invariant
            1 <= t <= count,
            count <= scores@.len(),
            plain_mod <= 0x10_0000,
            forall|i: int| 0 <= i < scores@.len() ==> #[trigger] scores@[i] < plain_mod,
            best < t,
            best_score as int == score_val(scores@[best as int], plain_mod),
            forall|j: int|
                0 <= j < t && j != best ==> ranks_before(scores@, plain_mod, best as int, j),
        decreases count - t,
    {
        let s = centered_score(scores[t], plain_mod);
        if s > best_score {
            proof {
                assert forall|j: int| 0 <= j < t && j != t as int implies ranks_before(
                    scores@,
                    plain_mod,
                    t as int,
                    j,
                ) by {
                    if j != best as int {
                        assert(ranks_before(scores@, plain_mod, best as int, j));
                    }
                }
            }
            best = t;
            best_score = s;
        }
        t += 1;
    }
    Ok(best)
}

/// A sequence shorter than `count` cannot mention every index in
/// `[0, count)`: the pigeonhole argument behind top-k selection.
proof fn lemma_missing_index(r: Seq<int>, count: int)
    requires
        r.len() < count,
    ensures
        exists|j: int| 0 <= j < count && !r.contains(j),
{
    if forall|j: int| 0 <= j < count ==> r.contains(j) {
        let full = vstd::set_lib::set_int_range(0, count);
        lemma_int_range(0, count);
        let rs = r.to_set();
        assert forall|x: int| full.contains(x) implies rs.contains(x) by {
            assert(r.contains(x));
        }
        assert(full.subset_of(rs));
        r.lemma_cardinality_of_set();
        vstd::seq_lib::seq_to_set_is_finite(r);
        lemma_len_subset(full, rs);
        assert(false);
    } else {
        let j = choose|j: int| !(0 <= j < count ==> r.contains(j));
        assert(0 <= j < count && !r.contains(j));
    }
}

/// Selects the `k` best-scoring records among the first `count`, ordered
/// best first. The result is sorted by rank, and every unselected
/// candidate ranks after the last selected one, so the selection is
/// exactly the top `k`.
pub fn top_k_indices(scores: &Vec<u64>, count: usize, k: usize, plain_mod: u64) -> (r: Result<
    Vec<usize>,
    PirError,
>)
    requires
        plain_mod <= 0x10_0000,
        forall|t: int| 0 <= t < scores@.len() ==> #[trigger] scores@[t] < plain_mod,
    ensures
        match r {
            Ok(top) => {
                &&& k <= count <= scores@.len()
                &&& top@.len() == k
                &&& forall|a: int| 0 <= a < k ==> #[trigger] top@[a] < count
                &&& forall|a: int, b: int|
                    0 <= a < b < k ==> ranks_before(
                        scores@,
                        plain_mod,
                        #[trigger] top@[a] as int,
                        #[trigger] top@[b] as int,
                    )
                &&& forall|a: int, j: usize|
                    #![trigger top@[a], top@.contains(j)]
                    0 <= a < k && 0 <= j < count && !top@.contains(j) ==> ranks_before(
                        scores@,
                        plain_mod,
                        top@[a] as int,
                        j as int,
                    )
            },
            Err(e) => {
                &&& e == PirError::DimensionMismatch
                &&& (k > count || count > scores@.len())
            },
        },
{
    if k > count || count > scores.len() {
        return Err(PirError::DimensionMismatch);
    }
    let mut chosen: Vec<bool> = Vec::new();
    let mut t: usize = 0;
    while t < count
        invariant
            t <= count,
            chosen@.len() == t,
            forall|i: int| 0 <= i < t ==> #[trigger] chosen@[i] == false,
        decreases count - t,
    {
        chosen.push(false);
        t += 1;
    }
    let mut top: Vec<usize> = Vec::new();
    let mut a: usize = 0;
    while a < k
        invariant
            a <= k,
            k <= count,
            count <= scores@.len(),
            plain_mod <= 0x10_0000,
            forall|i: int| 0 <= i < scores@.len() ==> #[trigger] scores@[i] < plain_mod,
            chosen@.len() == count,
            top@.len() == a,
            forall|b: int| 0 <= b < a ==> #[trigger] top@[b] < count,
            forall|j: int|
                0 <= j < count
                    ==> (#[trigger] chosen@[j] <==> exists|b: int|
                        0 <= b < a && top@[b] == j),
            forall|x: int, y: int|
                0 <= x < y < a ==> ranks_before(
                    scores@,
                    plain_mod,
                    #[trigger] top@[x] as int,
                    #[trigger] top@[y] as int,
                ),
            forall|b: int, j: int|
                #![trigger top@[b], chosen@[j]]
                0 <= b < a && 0 <= j < count && !chosen@[j] ==> ranks_before(
                    scores@,
                    plain_mod,
                    top@[b] as int,
                    j,
                ),
        decreases k - a,
    {
        // Find the first unselected index; one exists because fewer than
        // `count` indices are selected.
        let mut first: usize = 0;
        while first < count && chosen[first]
            invariant
                first <= count,
                chosen@.len() == count,
                forall|i: int| 0 <= i < first ==> #[trigger] chosen@[i] == true,
            decreases count - first,
        {
            first += 1;
        }
        if first == count {
            proof {
                let ti = top@.map_values(|x: usize| x as int);
                lemma_missing_index(ti, count as int);
                let j = choose|j: int| 0 <= j < count && !ti.contains(j);
                assert(chosen@[j]);
                let b = choose|b: int| 0 <= b < a && top@[b] == j;
                assert(ti[b] == j);
                assert(ti.contains(j));
            }
            return Err(PirError::DimensionMismatch);
        }
        let mut best: usize = first;
        let mut best_score: i64 = centered_score(scores[first], plain_mod);
        let mut t: usize = first + 1;
        while t < count
            invariant
                first < count,
                first <= best < t <= count,
                count <= scores@.len(),
                plain_mod <= 0x10_0000,
                forall|i: int| 0 <= i < scores@.len() ==> #[trigger] scores@[i] < plain_mod,
                chosen@.len() == count,
                !chosen@[best as int],
                best_score as int == score_val(scores@[best as int], plain_mod),
                forall|i: int| 0 <= i < first ==> #[trigger] chosen@[i] == true,
                forall|j: int|
                    0 <= j < t && j != best && !(#[trigger] chosen@[j]) ==> ranks_before(
                        scores@,
                        plain_mod,
                        best as int,
                        j,
                    ),
            decreases count - t,
        {
            if !chosen[t] {
                let s = centered_score(scores[t], plain_mod);
                if s > best_score {
                    best = t;
                    best_score = s;
                }
            }
            t += 1;
        }
        let ghost old_chosen = chosen@;
        let ghost old_top = top@;
        chosen.set(best, true);
        top.push(best);
        proof {
            let an = a as int;
            assert forall|j: int| 0 <= j < count implies (#[trigger] chosen@[j] <==> exists|
                b: int,
            |
                0 <= b < an + 1 && top@[b] == j) by {
                if j == best as int {
                    assert(top@[an] == best);
                } else {
                    assert(chosen@[j] == old_chosen[j]);
                    if chosen@[j] {
                        let b = choose|b: int| 0 <= b < an && old_top[b] == j;
                        assert(top@[b] == j);
                    } else {
                        if exists|b: int| 0 <= b < an + 1 && top@[b] == j {
                            let b = choose|b: int| 0 <= b < an + 1 && top@[b] == j;
                            assert(old_top[b] == j || b == an);
                        }
                    }
                }
            }
            assert forall|x: int, y: int| 0 <= x < y < an + 1 implies ranks_before(
                scores@,
                plain_mod,
                #[trigger] top@[x] as int,
                #[trigger] top@[y] as int,
            ) by {
                if y == an {
                    assert(!old_chosen[best as int]);
                    assert(ranks_before(scores@, plain_mod, old_top[x] as int, best as int));
                }
            }
            assert forall|b: int, j: int|
                #![trigger top@[b], chosen@[j]]
                0 <= b < an + 1 && 0 <= j < count && !chosen@[j] implies ranks_before(
                scores@,
                plain_mod,
                top@[b] as int,
                j,
            ) by {
                assert(chosen@[j] == old_chosen[j]);
                if b < an {
                    assert(ranks_before(scores@, plain_mod, old_top[b] as int, j));
                } else {
                    assert(ranks_before(scores@, plain_mod, best as int, j));
                }
            }
        }
        a += 1;
    }
    proof {
        assert forall|aa: int, j: usize|
            0 <= aa < k && 0 <= j < count && !(#[trigger] top@.contains(j)) implies ranks_before(
            scores@,
            plain_mod,
            #[trigger] top@[aa] as int,
            j as int,
        ) by {
            assert(!chosen@[j as int]);
        }
    }
    Ok(top)
}

} // verus!
