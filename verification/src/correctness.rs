//! Correctness of PIR recovery: if the accumulated noise in a row stays
//! under half a rounding step, recovering that row of the answer returns
//! the database cell exactly. The main theorem composes hint setup, query
//! encryption, the server answer and client recovery; a runnable self-test
//! exercises the whole pipeline under parameters whose worst-case noise is
//! proved inside the budget, so its success is a verified fact.

use vstd::prelude::*;
use vstd::arithmetic::div_mod::{
    lemma_fundamental_div_mod_converse_div, lemma_mod_add_multiples_vanish, lemma_mod_bound,
    lemma_mod_self_0, lemma_mod_twice, lemma_small_mod, lemma_sub_mod_noop,
    lemma_sub_mod_noop_right,
};

use vstd::slice::slice_to_vec;

use crate::linalg::{
    column, dot_to, int_rows, ints, lemma_dot_bound, lemma_dot_exchange, lemma_dot_linear,
    lemma_dot_mod, lemma_dot_one_hot, lemma_dot_swap, mat_mul_row, mat_vec,
};
use crate::lwe::{centered_seq, lwe_cipher, lwe_coord, one_hot, ERR_BOUND};
use crate::params::{lemma_shift_monotone, CIPHER_MOD, PirError};
use crate::pir::{
    answer_uncompressed, delta_for, hint_rows, noisy_coord, probe_query, query, recover_round,
    recover_row, setup, Database,
};
use crate::rng::a_matrix;

verus! {

/// The rounding step of recovery is exact: a residue congruent to
/// `delta * m + eps` rounds back to `m` whenever `2 * |eps| < delta`.
pub proof fn lemma_round_exact(yv: int, m: int, eps: int, p: int, delta: int)
    requires
        2 <= p,
        2 <= delta,
        delta % 2 == 0,
        p * delta == CIPHER_MOD as int,
        0 <= m < p,
        -delta < 2 * eps < delta,
        0 <= yv < CIPHER_MOD as int,
        yv % (CIPHER_MOD as int) == (delta * m + eps) % (CIPHER_MOD as int),
    ensures
        recover_round(yv, p) == m,
{
    let q = CIPHER_MOD as int;
    let h = delta / 2;
    assert(delta == 2 * h);
    let v = delta * m + eps;
    assert(-h + 1 <= eps <= h - 1);
    assert(delta <= q / 2) by (nonlinear_arith)
        requires
            p * delta == q,
            p >= 2,
            delta >= 2,
            q == 0x1_0000_0000,
    ;
    assert(h * p == q / 2) by (nonlinear_arith)
        requires
            p * delta == q,
            delta == 2 * h,
            q == 0x1_0000_0000,
    ;
    assert((-h + 1) * p <= eps * p <= (h - 1) * p) by (nonlinear_arith)
        requires
            -h + 1 <= eps <= h - 1,
            p >= 2,
    ;
    assert((-h + 1) * p == -(h * p) + p && (h - 1) * p == h * p - p) by (nonlinear_arith);
    let r = eps * p + q / 2;
    assert(p <= r <= q - p);
    if v >= 0 {
        assert(v < q) by (nonlinear_arith)
            requires
                v == delta * m + eps,
                0 <= m <= p - 1,
                eps <= h - 1,
                h <= delta,
                p * delta == q,
                delta >= 2,
                p >= 2,
        ;
        lemma_small_mod(v as nat, q as nat);
        lemma_small_mod(yv as nat, q as nat);
        assert(yv == v);
        assert(yv * p + q / 2 == q * m + r) by (nonlinear_arith)
            requires
                yv == delta * m + eps,
                p * delta == q,
                r == eps * p + q / 2,
        ;
        lemma_fundamental_div_mod_converse_div(yv * p + q / 2, q, m, r);
        lemma_small_mod(m as nat, p as nat);
    } else {
        assert(m == 0) by (nonlinear_arith)
            requires
                v == delta * m + eps,
                v < 0,
                -h + 1 <= eps,
                m >= 0,
                delta == 2 * h,
                h >= 1,
        ;
        assert(v == eps);
        lemma_mod_add_multiples_vanish(eps, q);
        lemma_small_mod((eps + q) as nat, q as nat);
        lemma_small_mod(yv as nat, q as nat);
        assert(yv == eps + q);
        assert(yv * p + q / 2 == q * p + r) by (nonlinear_arith)
            requires
                yv == eps + q,
                r == eps * p + q / 2,
        ;
        lemma_fundamental_div_mod_converse_div(yv * p + q / 2, q, p, r);
        lemma_mod_self_0(p);
    }
}

/// PIR recovery is exact in every row whose noise term, the dot product of
/// the database row with the signed query errors, stays under half a
/// rounding step: subtracting the hint contribution from the answer
/// coordinate and rounding returns cell `(j, i)` of the database.
pub proof fn lemma_pir_round_trip(
    d: Seq<Seq<u64>>,
    seed: u64,
    n: int,
    side: int,
    s: Seq<u64>,
    e: Seq<u64>,
    i: int,
    p: u64,
    delta: u64,
    ans_j: u64,
    j: int,
)
    requires
        side == d.len(),
        forall|t: int| 0 <= t < side ==> (#[trigger] d[t]).len() == side,
        forall|t: int, l: int|
            0 <= t < side && 0 <= l < side ==> #[trigger] d[t][l] < p,
        s.len() == n,
        0 <= n,
        e.len() == side,
        0 <= i < side,
        0 <= j < side,
        2 <= p,
        2 <= delta,
        delta % 2 == 0,
        (p as int) * (delta as int) == CIPHER_MOD as int,
        ans_j == dot_to(
            ints(d[j]),
            ints(
                lwe_cipher(
                    a_matrix(seed, side, n),
                    s,
                    centered_seq(e),
                    one_hot(side, i),
                    delta,
                    n,
                ),
            ),
            side,
        ) % (CIPHER_MOD as int),
        -(delta as int) < 2 * dot_to(ints(d[j]), centered_seq(e), side) < delta as int,
    ensures
        recover_round(
            noisy_coord(ans_j, hint_rows(d, seed, side, n)[j], s, n),
            p as int,
        ) == d[j][i],
{
    let q = CIPHER_MOD as int;
    let a = a_matrix(seed, side, n);
    let es = centered_seq(e);
    let x = one_hot(side, i);
    let xi = ints(x);
    let u = lwe_cipher(a, s, es, x, delta, n);
    let dj = ints(d[j]);
    let w = Seq::new(side as nat, |k: int| lwe_coord(a, s, es, x, delta, n, k));
    let w1 = mat_vec(int_rows(a), ints(s), n);
    let w12 = Seq::new(side as nat, |k: int| w1[k] + es[k]);
    let eps = dot_to(dj, es, side);
    let m = d[j][i] as int;

    // The reduced ciphertext is congruent to its exact value.
    assert forall|k: int| 0 <= k < side implies ints(u)[k] % q == w[k] % q by {
        assert(u[k] == (lwe_coord(a, s, es, x, delta, n, k) % q) as u64);
        lemma_mod_bound(lwe_coord(a, s, es, x, delta, n, k), q);
        lemma_mod_twice(lwe_coord(a, s, es, x, delta, n, k), q);
    }
    lemma_dot_mod(dj, ints(u), dj, w, side, q);
    let big_t = dot_to(dj, w, side);
    assert(ans_j == big_t % q);

    // Split the exact value into hint part, noise part and payload part.
    assert forall|k: int| 0 <= k < side implies w[k] == w12[k] + (delta as int) * xi[k] by {
        assert(w1[k] == dot_to(ints(a[k]), ints(s), n));
    }
    lemma_dot_swap(dj, w, side);
    lemma_dot_linear(dj, w, w12, xi, delta as int, side);
    lemma_dot_swap(w12, dj, side);
    assert forall|k: int| 0 <= k < side implies w12[k] == w1[k] + 1 * es[k] by {}
    lemma_dot_linear(dj, w12, w1, es, 1, side);
    lemma_dot_swap(w1, dj, side);
    lemma_dot_swap(es, dj, side);
    lemma_dot_swap(xi, dj, side);
    assert forall|k: int| 0 <= k < side implies xi[k] == (if k == i {
        1int
    } else {
        0int
    }) by {}
    lemma_dot_one_hot(dj, xi, i, 1, side);
    assert(dot_to(dj, xi, side) == m);
    assert(big_t == dot_to(dj, w1, side) + eps + (delta as int) * m);

    // Exchange summation: the hint row against the secret equals the
    // public-matrix part of the answer.
    lemma_dot_exchange(dj, int_rows(a), ints(s), n, side);
    let mm = mat_mul_row(dj, int_rows(a), side, n);
    let big_s = dot_to(mm, ints(s), n);
    assert(dot_to(dj, w1, side) == big_s);

    // The published hint row is the reduced exchange row.
    let hj = hint_rows(d, seed, side, n)[j];
    assert forall|l: int| 0 <= l < n implies ints(hj)[l] % q == mm[l] % q by {
        assert(hj[l] == (dot_to(ints(d[j]), column(int_rows(a), l), side) % q) as u64);
        lemma_mod_bound(mm[l], q);
        lemma_mod_twice(mm[l], q);
    }
    assert forall|l: int| 0 <= l < n implies ints(s)[l] % q == ints(s)[l] % q by {}
    lemma_dot_mod(ints(hj), ints(s), mm, ints(s), n, q);
    let hdot = dot_to(ints(hj), ints(s), n);

    // Subtract the hint contribution: only noise and payload remain.
    lemma_sub_mod_noop_right(big_t % q, hdot, q);
    lemma_sub_mod_noop(big_t, big_s, q);
    assert((ans_j - hdot) % q == (big_t - big_s) % q);
    assert(big_t - big_s == (delta as int) * m + eps);

    // Round the remainder back to the plaintext cell.
    let yv = (ans_j - hdot) % q;
    lemma_mod_bound(ans_j - hdot, q);
    lemma_mod_twice(ans_j - hdot, q);
    lemma_round_exact(yv, m, eps, p as int, delta as int);
    assert(noisy_coord(ans_j, hj, s, n) == yv);
}

/// Round-one correctness: when the plaintext is a probe vector rather
/// than a one-hot indicator, recovery in row `j` returns the dot product
/// of database row `j` with the probe, reduced modulo the plaintext
/// modulus, whenever the noise stays under half a rounding step. This is
/// the homomorphic scoring guarantee of the embedding round.
pub proof fn lemma_pir_scores(
    d: Seq<Seq<u64>>,
    seed: u64,
    n: int,
    side: int,
    s: Seq<u64>,
    e: Seq<u64>,
    x: Seq<u64>,
    p: u64,
    delta: u64,
    ans_j: u64,
    j: int,
)
    requires
        side == d.len(),
        forall|t: int| 0 <= t < side ==> (#[trigger] d[t]).len() == side,
        forall|t: int, l: int|
            0 <= t < side && 0 <= l < side ==> #[trigger] d[t][l] < p,
        s.len() == n,
        0 <= n,
        e.len() == side,
        x.len() == side,
        0 <= j < side,
        2 <= p,
        2 <= delta,
        delta % 2 == 0,
        (p as int) * (delta as int) == CIPHER_MOD as int,
        ans_j == dot_to(
            ints(d[j]),
            ints(lwe_cipher(a_matrix(seed, side, n), s, centered_seq(e), x, delta, n)),
            side,
        ) % (CIPHER_MOD as int),
        -(delta as int) < 2 * dot_to(ints(d[j]), centered_seq(e), side) < delta as int,
    ensures
        recover_round(
            noisy_coord(ans_j, hint_rows(d, seed, side, n)[j], s, n),
            p as int,
        ) == dot_to(ints(d[j]), ints(x), side) % (p as int),
{
    let q = CIPHER_MOD as int;
    let a = a_matrix(seed, side, n);
    let es = centered_seq(e);
    let xi = ints(x);
    let u = lwe_cipher(a, s, es, x, delta, n);
    let dj = ints(d[j]);
    let w = Seq::new(side as nat, |k: int| lwe_coord(a, s, es, x, delta, n, k));
    let w1 = mat_vec(int_rows(a), ints(s), n);
    let w12 = Seq::new(side as nat, |k: int| w1[k] + es[k]);
    let eps = dot_to(dj, es, side);
    let tv = dot_to(dj, xi, side);

    // The reduced ciphertext is congruent to its exact value.
    assert forall|k: int| 0 <= k < side implies ints(u)[k] % q == w[k] % q by {
        assert(u[k] == (lwe_coord(a, s, es, x, delta, n, k) % q) as u64);
        lemma_mod_bound(lwe_coord(a, s, es, x, delta, n, k), q);
        lemma_mod_twice(lwe_coord(a, s, es, x, delta, n, k), q);
    }
    lemma_dot_mod(dj, ints(u), dj, w, side, q);
    let big_t = dot_to(dj, w, side);
    assert(ans_j == big_t % q);

    // Split the exact value into hint part, noise part and payload part.
    assert forall|k: int| 0 <= k < side implies w[k] == w12[k] + (delta as int) * xi[k] by {
        assert(w1[k] == dot_to(ints(a[k]), ints(s), n));
    }
    lemma_dot_swap(dj, w, side);
    lemma_dot_linear(dj, w, w12, xi, delta as int, side);
    lemma_dot_swap(w12, dj, side);
    assert forall|k: int| 0 <= k < side implies w12[k] == w1[k] + 1 * es[k] by {}
    lemma_dot_linear(dj, w12, w1, es, 1, side);
    lemma_dot_swap(w1, dj, side);
    lemma_dot_swap(es, dj, side);
    lemma_dot_swap(xi, dj, side);
    assert(big_t == dot_to(dj, w1, side) + eps + (delta as int) * tv);

    // Exchange summation and cancel the hint, as in the one-hot case.
    lemma_dot_exchange(dj, int_rows(a), ints(s), n, side);
    let mm = mat_mul_row(dj, int_rows(a), side, n);
    let big_s = dot_to(mm, ints(s), n);
    assert(dot_to(dj, w1, side) == big_s);
    let hj = hint_rows(d, seed, side, n)[j];
    assert forall|l: int| 0 <= l < n implies ints(hj)[l] % q == mm[l] % q by {
        assert(hj[l] == (dot_to(ints(d[j]), column(int_rows(a), l), side) % q) as u64);
        lemma_mod_bound(mm[l], q);
        lemma_mod_twice(mm[l], q);
    }
    lemma_dot_mod(ints(hj), ints(s), mm, ints(s), n, q);
    let hdot = dot_to(ints(hj), ints(s), n);
    lemma_sub_mod_noop_right(big_t % q, hdot, q);
    lemma_sub_mod_noop(big_t, big_s, q);
    assert((ans_j - hdot) % q == (big_t - big_s) % q);
    assert(big_t - big_s == (delta as int) * tv + eps);

    // The payload reduces modulo the plaintext modulus.
    assert forall|k: int| 0 <= k < side implies #[trigger] dj[k] >= 0 by {
        assert(dj[k] == d[j][k]);
    }
    assert forall|k: int| 0 <= k < side implies #[trigger] xi[k] >= 0 by {
        assert(xi[k] == x[k]);
    }
    crate::linalg::lemma_dot_nonneg(dj, xi, side);
    vstd::arithmetic::div_mod::lemma_fundamental_div_mod(tv, p as int);
    lemma_mod_bound(tv, p as int);
    let m = tv % (p as int);
    assert((delta as int) * tv == q * (tv / (p as int)) + (delta as int) * m)
        by (nonlinear_arith)
        requires
            tv == (p as int) * (tv / (p as int)) + m,
            (p as int) * (delta as int) == q,
    ;
    assert(((delta as int) * tv + eps) % q == ((delta as int) * m + eps) % q) by {
        assert(q * (tv / (p as int)) == (tv / (p as int)) * q) by (nonlinear_arith);
        vstd::arithmetic::div_mod::lemma_mod_multiples_vanish(
            tv / (p as int),
            (delta as int) * m + eps,
            q,
        );
    }

    // Round the remainder back to the reduced payload.
    let yv = (ans_j - hdot) % q;
    lemma_mod_bound(ans_j - hdot, q);
    lemma_mod_twice(ans_j - hdot, q);
    lemma_round_exact(yv, m, eps, p as int, delta as int);
    assert(noisy_coord(ans_j, hj, s, n) == yv);
}

/// Hint generation is a pure function of the database and the seed: two
/// setups over the same database under the same seed publish identical
/// hints, so regeneration is idempotent.
pub proof fn lemma_setup_deterministic(
    d: Seq<Seq<u64>>,
    seed: u64,
    side: int,
    n: int,
    h1: Seq<Seq<u64>>,
    h2: Seq<Seq<u64>>,
)
    requires
        h1 == hint_rows(d, seed, side, n),
        h2 == hint_rows(d, seed, side, n),
    ensures
        h1 == h2,
{
}

/// The worst-case noise bound: with every error coordinate bounded by
/// `bound` and every database cell below `p`, the noise term of any row is
/// at most `side * (p - 1) * bound` in magnitude. Together with
/// `lemma_pir_round_trip`, parameters satisfying
/// `2 * side * (p - 1) * bound < delta` make recovery exact in every row.
pub proof fn lemma_noise_budget(
    d_row: Seq<u64>,
    e: Seq<u64>,
    side: int,
    p: u64,
    bound: u64,
)
    requires
        0 <= side,
        d_row.len() >= side,
        e.len() >= side,
        p >= 1,
        forall|l: int| 0 <= l < side ==> #[trigger] d_row[l] < p,
        forall|l: int|
            0 <= l < side
                ==> -(bound as int) <= crate::lwe::centered(#[trigger] e[l]) <= bound as int,
    ensures
        -(side * ((p - 1) as int) * (bound as int)) <= dot_to(ints(d_row), centered_seq(e), side)
            <= side * ((p - 1) as int) * (bound as int),
{
    assert forall|l: int| 0 <= l < side implies 0 <= #[trigger] ints(d_row)[l] <= (p - 1) as int
        by {
        assert(d_row[l] < p);
    }
    assert forall|l: int|
        0 <= l < side implies -(bound as int) <= #[trigger] centered_seq(e)[l] <= bound as int by {
        assert(centered_seq(e)[l] == crate::lwe::centered(e[l]));
    }
    lemma_dot_bound(ints(d_row), centered_seq(e), side, (p - 1) as int, bound as int);
}

/// A verified self-test of the whole pipeline: build a random database,
/// set up hints, query column zero, answer, and recover the column. Under
/// these parameters the worst-case noise is proved inside the budget, so
/// the recovered column always equals the database column: the test cannot
/// fail, and the contract says so.
pub fn self_test(side: usize, mod_power: u64, secret_dimension: usize) -> (r: Result<
    bool,
    PirError,
>)
    requires
        1 <= side <= 1000,
        1 <= mod_power <= 8,
        1 <= secret_dimension,
        side * side <= usize::MAX,
        side * secret_dimension <= usize::MAX,
    ensures
        r == Ok::<bool, PirError>(true),
{
    let db = match Database::new_random(side, mod_power) {
        Ok(db) => db,
        Err(e) => {
            proof {
                assert(false);
            }
            return Err(e);
        },
    };
    let (seed, hint) = setup(&db, secret_dimension);
    let plain_mod = 1u64 << mod_power;
    proof {
        lemma_shift_monotone(mod_power);
        assert(crate::pir::is_plain_mod(plain_mod)) by {
            assert(1 <= mod_power <= crate::params::MAX_MOD_POWER && plain_mod == (1u64
                << mod_power));
        }
    }
    let delta = match delta_for(plain_mod) {
        Some(d) => d,
        None => {
            proof {
                assert(false);
            }
            return Err(PirError::ModulusTooLarge);
        },
    };
    let (st, u) = match query(0, side, secret_dimension, seed, plain_mod) {
        Ok(pair) => pair,
        Err(e) => {
            proof {
                assert(false);
            }
            return Err(e);
        },
    };
    let ans = match answer_uncompressed(&db, &u) {
        Ok(a) => a,
        Err(e) => {
            proof {
                assert(false);
            }
            return Err(e);
        },
    };
    let row = match recover_row(&st, &hint, &ans, &u, plain_mod) {
        Ok(v) => v,
        Err(e) => {
            proof {
                assert(false);
            }
            return Err(e);
        },
    };
    proof {
        let d = db.matrix@;
        let n = secret_dimension as int;
        let sd = side as int;
        let p = plain_mod;
        assert forall|j: int| 0 <= j < sd implies row@[j] == d[j][0] by {
            assert(2 * (sd * ((p - 1) as int) * (ERR_BOUND as int)) < delta as int)
                by (nonlinear_arith)
                requires
                    1 <= sd <= 1000,
                    2 <= p <= 256,
                    ERR_BOUND == 11,
                    (delta as int) * (p as int) == CIPHER_MOD as int,
                    CIPHER_MOD == 0x1_0000_0000,
                    delta >= 1,
            ;
            lemma_round_trip_within_budget(
                d,
                seed,
                n,
                sd,
                st.secret@,
                st.err@,
                0,
                p,
                delta,
                ans@[j],
                j,
                ERR_BOUND,
            );
        }
    }
    let mut j: usize = 0;
    while j < side
        invariant
            j <= side,
            side == db.matrix.nrows,
            db.wf(),
            row@.len() == side,
            forall|t: int| 0 <= t < side ==> #[trigger] row@[t] == db.matrix@[t][0],
        decreases side - j,
    {
        proof {
            assert(db.matrix@[j as int].len() == db.matrix.ncols);
            assert(db.matrix@[j as int] == db.matrix.data@[j as int]@);
        }
        if row[j] != db.matrix.data[j][0] {
            proof {
                assert(false);
            }
            return Ok(false);
        }
        j += 1;
    }
    Ok(true)
}

/// The deterministic correctness condition of the whole scheme: when the
/// worst-case noise budget `2 * side * (p - 1) * bound` stays under the
/// rounding step `delta`, recovery is exact in every row, whatever values
/// the errors took within their bound. Decryption failure is impossible
/// under this premise, not merely improbable.
pub proof fn lemma_round_trip_within_budget(
    d: Seq<Seq<u64>>,
    seed: u64,
    n: int,
    side: int,
    s: Seq<u64>,
    e: Seq<u64>,
    i: int,
    p: u64,
    delta: u64,
    ans_j: u64,
    j: int,
    bound: u64,
)
    requires
        side == d.len(),
        forall|t: int| 0 <= t < side ==> (#[trigger] d[t]).len() == side,
        forall|t: int, l: int|
            0 <= t < side && 0 <= l < side ==> #[trigger] d[t][l] < p,
        s.len() == n,
        0 <= n,
        e.len() == side,
        forall|t: int|
            0 <= t < side
                ==> -(bound as int) <= crate::lwe::centered(#[trigger] e[t]) <= bound as int,
        0 <= i < side,
        0 <= j < side,
        2 <= p,
        2 <= delta,
        delta % 2 == 0,
        (p as int) * (delta as int) == CIPHER_MOD as int,
        2 * (side * ((p - 1) as int) * (bound as int)) < delta as int,
        ans_j == dot_to(
            ints(d[j]),
            ints(
                lwe_cipher(
                    a_matrix(seed, side, n),
                    s,
                    centered_seq(e),
                    one_hot(side, i),
                    delta,
                    n,
                ),
            ),
            side,
        ) % (CIPHER_MOD as int),
    ensures
        recover_round(
            noisy_coord(ans_j, hint_rows(d, seed, side, n)[j], s, n),
            p as int,
        ) == d[j][i],
{
    lemma_noise_budget(d[j], e, side, p, bound);
    lemma_pir_round_trip(d, seed, n, side, s, e, i, p, delta, ans_j, j);
}

/// The exact dot product of two bounded word vectors, reduced modulo the
/// plaintext modulus: the reference value a scoring row must recover to.
fn dot_mod_plain(a: &Vec<u64>, b: &Vec<u64>, k: usize, p: u64) -> (r: u64)
    requires
        k <= a@.len(),
        k <= b@.len(),
        2 <= p,
        forall|t: int| 0 <= t < a@.len() ==> #[trigger] a@[t] < 0x1_0000_0000u64,
        forall|t: int| 0 <= t < b@.len() ==> #[trigger] b@[t] < 0x1_0000_0000u64,
    ensures
        r == dot_to(ints(a@), ints(b@), k as int) % (p as int),
{
    let mut acc: u128 = 0;
    let mut t: usize = 0;
    while t < k
        invariant
            t <= k,
            k <= a@.len(),
            k <= b@.len(),
            forall|i: int| 0 <= i < a@.len() ==> #[trigger] a@[i] < 0x1_0000_0000u64,
            forall|i: int| 0 <= i < b@.len() ==> #[trigger] b@[i] < 0x1_0000_0000u64,
            acc == dot_to(ints(a@), ints(b@), t as int),
            acc <= (t as int) * 0xFFFF_FFFF * 0xFFFF_FFFF,
        decreases k - t,
    {
        proof {
            lemma_dot_bound(ints(a@), ints(b@), (t + 1) as int, 0xFFFF_FFFF, 0xFFFF_FFFF);
            assert(((t + 1) as int) * 0xFFFF_FFFF * 0xFFFF_FFFF < u128::MAX)
                by (nonlinear_arith)
                requires
                    0 <= t < u64::MAX,
            ;
        }
        acc = acc + (a[t] as u128) * (b[t] as u128);
        t += 1;
    }
    (acc % (p as u128)) as u64
}

/// A verified self-test of the scoring round: build a random database,
/// probe it with a random plaintext vector, and recover the score row.
/// Under these parameters the worst-case noise is proved inside the
/// budget, so every recovered score equals the exact dot product of the
/// corresponding database row with the probe, modulo the plaintext
/// modulus; the test cannot fail and the contract says so.
pub fn score_self_test(side: usize, mod_power: u64, secret_dimension: usize) -> (r: Result<
    bool,
    PirError,
>)
    requires
        1 <= side <= 1000,
        1 <= mod_power <= 8,
        1 <= secret_dimension,
        side * side <= usize::MAX,
        side * secret_dimension <= usize::MAX,
    ensures
        r == Ok::<bool, PirError>(true),
{
    let db = match Database::new_random(side, mod_power) {
        Ok(db) => db,
        Err(e) => {
            proof {
                assert(false);
            }
            return Err(e);
        },
    };
    let (seed, hint) = setup(&db, secret_dimension);
    let plain_mod = 1u64 << mod_power;
    proof {
        lemma_shift_monotone(mod_power);
        assert(crate::pir::is_plain_mod(plain_mod)) by {
            assert(1 <= mod_power <= crate::params::MAX_MOD_POWER && plain_mod == (1u64
                << mod_power));
        }
    }
    let delta = match delta_for(plain_mod) {
        Some(d) => d,
        None => {
            proof {
                assert(false);
            }
            return Err(PirError::ModulusTooLarge);
        },
    };
    // A random plaintext probe below the plaintext modulus.
    let probe_db = match Database::new_random(side, mod_power) {
        Ok(db) => db,
        Err(e) => {
            proof {
                assert(false);
            }
            return Err(e);
        },
    };
    proof {
        assert(probe_db.matrix@[0].len() == probe_db.matrix.ncols);
        assert(probe_db.matrix@[0] == probe_db.matrix.data@[0]@);
    }
    let probe = slice_to_vec(probe_db.matrix.data[0].as_slice());
    proof {
        assert(probe@ == probe_db.matrix@[0]);
        assert forall|t: int| 0 <= t < probe@.len() implies #[trigger] probe@[t] < plain_mod by {
            assert(probe@[t] == probe_db.matrix@[0][t]);
        }
    }
    let (st, u) = match probe_query(&probe, side, secret_dimension, seed, plain_mod) {
        Ok(pair) => pair,
        Err(e) => {
            proof {
                assert(false);
            }
            return Err(e);
        },
    };
    let ans = match answer_uncompressed(&db, &u) {
        Ok(a) => a,
        Err(e) => {
            proof {
                assert(false);
            }
            return Err(e);
        },
    };
    let row = match recover_row(&st, &hint, &ans, &u, plain_mod) {
        Ok(v) => v,
        Err(e) => {
            proof {
                assert(false);
            }
            return Err(e);
        },
    };
    proof {
        let d = db.matrix@;
        let n = secret_dimension as int;
        let sd = side as int;
        let p = plain_mod;
        assert forall|j: int|
            0 <= j < sd implies row@[j] == dot_to(ints(d[j]), ints(probe@), sd) % (p as int) by {
            lemma_noise_budget(d[j], st.err@, sd, p, ERR_BOUND);
            assert(2 * (sd * ((p - 1) as int) * (ERR_BOUND as int)) < delta as int)
                by (nonlinear_arith)
                requires
                    1 <= sd <= 1000,
                    2 <= p <= 256,
                    ERR_BOUND == 11,
                    (delta as int) * (p as int) == CIPHER_MOD as int,
                    CIPHER_MOD == 0x1_0000_0000,
                    delta >= 1,
            ;
            lemma_pir_scores(d, seed, n, sd, st.secret@, st.err@, probe@, p, delta, ans@[j], j);
        }
    }
    let mut j: usize = 0;
    while j < side
        invariant
            j <= side,
            side == db.matrix.nrows,
            db.wf(),
            2 <= plain_mod,
            probe@.len() == side,
            forall|t: int| 0 <= t < probe@.len() ==> #[trigger] probe@[t] < 0x1_0000_0000u64,
            row@.len() == side,
            forall|t: int|
                0 <= t < side
                    ==> #[trigger] row@[t] == dot_to(
                        ints(db.matrix@[t]),
                        ints(probe@),
                        side as int,
                    ) % (plain_mod as int),
        decreases side - j,
    {
        proof {
            assert(db.matrix@[j as int].len() == db.matrix.ncols);
            assert(db.matrix@[j as int] == db.matrix.data@[j as int]@);
            lemma_shift_monotone(db.mod_power);
            assert(forall|t: int|
                0 <= t < db.matrix.data@[j as int]@.len()
                    ==> #[trigger] db.matrix.data@[j as int]@[t] < 0x1_0000_0000u64) by {
                assert(forall|t: int|
                    0 <= t < db.matrix@[j as int].len()
                        ==> #[trigger] db.matrix@[j as int][t] < db.plain_mod_spec());
            }
        }
        let expected = dot_mod_plain(&db.matrix.data[j], &probe, side, plain_mod);
        if row[j] != expected {
            proof {
                assert(false);
            }
            return Ok(false);
        }
        j += 1;
    }
    Ok(true)
}

} // verus!
