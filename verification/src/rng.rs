//! Randomness sources. Two trusted wrappers stand between the library and
//! the `rand` crates: one for fresh (thread-local) randomness, of which
//! nothing is assumed beyond its length, and one for the seeded ChaCha
//! stream that regenerates the public LWE matrix, whose words are a pure
//! function of the seed.

use vstd::prelude::*;

use rand::{Rng, SeedableRng};
use rand_chacha::ChaCha20Rng;

use crate::lwe::centered;
use crate::matrix::Matrix;
use crate::params::CIPHER_MOD;

verus! {

/// The words that the ChaCha stream seeded with `seed` begins with.
/// A seeded generator is reproducible on every run and machine, so the
/// stream is a function of the seed alone.
pub uninterp spec fn chacha_words(seed: u64, len: int) -> Seq<u64>;

/// Relies on `rand_chacha::ChaCha20Rng::seed_from_u64` and
/// `rand_core::Rng::next_u64`: a seeded generator emits a reproducible
/// word stream, here given the name `chacha_words(seed, len)`.
#[verifier::external_body]
fn chacha_stream(seed: u64, len: usize) -> (r: Vec<u64>)
    ensures
        r@ == chacha_words(seed, len as int),
        r@.len() == len,
{
    let mut rng = ChaCha20Rng::seed_from_u64(seed);
    let mut out: Vec<u64> = Vec::with_capacity(len);
    for _ in 0..len {
        out.push(rng.next_u64());
    }
    out
}

/// Relies on `rand::random`: each call yields a word from the thread-local
/// generator. The values are unpredictable, so only the length is stated.
#[verifier::external_body]
pub(crate) fn fresh_words(len: usize) -> (r: Vec<u64>)
    ensures
        r@.len() == len,
{
    let mut out: Vec<u64> = Vec::with_capacity(len);
    for _ in 0..len {
        out.push(rand::random::<u64>());
    }
    out
}

/// The public LWE matrix determined by a seed: entry `(j, l)` is word
/// `j * cols + l` of the seeded stream, reduced modulo `q`.
pub open spec fn a_matrix(seed: u64, rows: int, cols: int) -> Seq<Seq<u64>> {
    Seq::new(
        rows as nat,
        |j: int|
            Seq::new(
                cols as nat,
                |l: int| (chacha_words(seed, rows * cols)[j * cols + l] % CIPHER_MOD) as u64,
            ),
    )
}

/// Materialises the public LWE matrix from its seed. Regeneration is
/// idempotent: the result is a pure function of `(seed, rows, cols)`.
pub fn expand_a(seed: u64, rows: usize, cols: usize) -> (r: Matrix)
    requires
        rows * cols <= usize::MAX,
        cols >= 1,
    ensures
        r.wf(),
        r.bounded(CIPHER_MOD),
        r.nrows == rows,
        r.ncols == cols,
        r@ == a_matrix(seed, rows as int, cols as int),
{
    let ghost total = (rows * cols) as int;
    let words = chacha_stream(seed, rows * cols);
    let mut data: Vec<Vec<u64>> = Vec::new();
    let mut j: usize = 0;
    while j < rows
        invariant
            j <= rows,
            rows * cols <= usize::MAX,
            cols >= 1,
            total == rows * cols,
            words@ == chacha_words(seed, total),
            words@.len() == total,
            data@.len() == j,
            forall|t: int| #![trigger data@[t]]
                0 <= t < j ==> data@[t]@ == a_matrix(seed, rows as int, cols as int)[t],
        decreases rows - j,
    {
        proof {
            assert(j * cols + cols <= rows * cols) by (nonlinear_arith)
                requires
                    0 <= j < rows,
                    cols >= 1,
            ;
        }
        let base = j * cols;
        let mut row: Vec<u64> = Vec::new();
        let mut l: usize = 0;
        while l < cols
            invariant
                l <= cols,
                j < rows,
                cols >= 1,
                base == j * cols,
                base + cols <= rows * cols,
                rows * cols <= usize::MAX,
                total == rows * cols,
                words@ == chacha_words(seed, total),
                words@.len() == total,
                row@.len() == l,
                forall|t: int|
                    0 <= t < l
                        ==> #[trigger] row@[t] == (chacha_words(seed, total)[j * cols + t]
                            % CIPHER_MOD) as u64,
            decreases cols - l,
        {
            let w = words[base + l];
            row.push(w % CIPHER_MOD);
            l += 1;
        }
        proof {
            assert(row@ =~= a_matrix(seed, rows as int, cols as int)[j as int]);
        }
        data.push(row);
        j += 1;
    }
    let m = Matrix { data, nrows: rows, ncols: cols };
    proof {
        assert(m@ =~= a_matrix(seed, rows as int, cols as int));
    }
    m
}

/// Draws a fresh uniform LWE secret: `n` words below `q`.
pub fn gen_secret(n: usize) -> (r: Vec<u64>)
    ensures
        r@.len() == n,
        forall|t: int| 0 <= t < n ==> #[trigger] r@[t] < CIPHER_MOD,
{
    let words = fresh_words(n);
    let mut out: Vec<u64> = Vec::new();
    let mut t: usize = 0;
    while t < n
        invariant
            t <= n,
            words@.len() == n,
            out@.len() == t,
            forall|i: int| 0 <= i < t ==> #[trigger] out@[i] < CIPHER_MOD,
        decreases n - t,
    {
        out.push(words[t] % CIPHER_MOD);
        t += 1;
    }
    out
}

/// Draws one fresh word, used to seed a database's public matrix.
pub fn gen_seed() -> (r: u64) {
    let words = fresh_words(1);
    words[0]
}

/// Draws a fresh error vector for one LWE encryption: each coordinate
/// lies in `[-bound, bound]`, returned as its residue modulo `q`.
pub fn sample_error(len: usize, bound: u64) -> (r: Vec<u64>)
    requires
        1 <= bound,
        bound <= CIPHER_MOD / 4,
    ensures
        r@.len() == len,
        forall|t: int| 0 <= t < len ==> #[trigger] r@[t] < CIPHER_MOD,
        forall|t: int|
            0 <= t < len
                ==> -(bound as int) <= centered(#[trigger] r@[t]) <= bound as int,
{
    let words = fresh_words(len);
    let width = 2 * bound + 1;
    let mut out: Vec<u64> = Vec::new();
    let mut t: usize = 0;
    while t < len
        invariant
            t <= len,
            1 <= bound,
            bound <= CIPHER_MOD / 4,
            width == 2 * bound + 1,
            words@.len() == len,
            out@.len() == t,
            forall|i: int| 0 <= i < t ==> #[trigger] out@[i] < CIPHER_MOD,
            forall|i: int|
                0 <= i < t
                    ==> -(bound as int) <= centered(#[trigger] out@[i]) <= bound as int,
        decreases len - t,
    {
        let v = words[t] % width;
        let res: u64 = if v >= bound {
            v - bound
        } else {
            CIPHER_MOD - (bound - v)
        };
        out.push(res);
        t += 1;
    }
    out
}

} // verus!
