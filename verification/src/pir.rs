//! The SimplePIR engine: hint setup, encrypted query, server answer, and
//! client recovery. A database is a square matrix of plaintext residues;
//! the server publishes a seed (from which the public LWE matrix is
//! regenerated) and the hint `H = D * A mod q`; a client queries one column
//! with a fresh LWE secret and recovers it by cancelling the hint.

use vstd::prelude::*;
use vstd::arithmetic::div_mod::{
    lemma_mod_add_multiples_vanish, lemma_sub_mod_noop_right, lemma_mod_bound,
    lemma_div_by_multiple,
};
use vstd::arithmetic::power2::{lemma_pow2_adds, lemma_pow2_strictly_increases, lemma2_to64,
    lemma2_to64_rest, pow2};
use vstd::bits::{lemma_u64_pow2_no_overflow, lemma_u64_shl_is_mul};

use crate::linalg::{column, dot_to, int_rows, ints, lemma_dot_bound};
use crate::lwe::{centered, centered_seq, encrypt, lwe_cipher, one_hot, ClientState, ERR_BOUND};
use crate::matrix::Matrix;
use crate::params::{lemma_shift_monotone, CIPHER_MOD, PirError, MAX_MOD_POWER};
use crate::rng::{a_matrix, expand_a, fresh_words, gen_secret, gen_seed, sample_error};

verus! {

/// A plaintext modulus the engine accepts: a power of two between `2^1`
/// and `2^20`.
pub open spec fn is_plain_mod(p: u64) -> bool {
    exists|k: u64| 1 <= k <= MAX_MOD_POWER && p == (1u64 << k)
}

/// The hint matrix determined by a database and a seed: entry `(j, l)` is
/// the dot product of database row `j` with column `l` of the regenerated
/// public matrix, reduced modulo `q`. A pure function of `(d, seed)`.
pub open spec fn hint_rows(d: Seq<Seq<u64>>, seed: u64, side: int, n: int) -> Seq<Seq<u64>> {
    Seq::new(
        d.len(),
        |j: int|
            Seq::new(
                n as nat,
                |l: int|
                    (dot_to(ints(d[j]), column(int_rows(a_matrix(seed, side, n)), l), side)
                        % (CIPHER_MOD as int)) as u64,
            ),
    )
}

/// The rounding step of recovery: scale a residue from the ciphertext
/// modulus down to the plaintext modulus, rounding to the nearest multiple
/// of `q / p`.
pub open spec fn recover_round(y: int, p: int) -> int {
    ((y * p + (CIPHER_MOD as int) / 2) / (CIPHER_MOD as int)) % p
}

/// What recovery computes in coordinate `j` before rounding: the answer
/// coordinate minus the hint-row dot product with the secret, mod `q`.
pub open spec fn noisy_coord(a_j: u64, h_j: Seq<u64>, s: Seq<u64>, n: int) -> int {
    (a_j - dot_to(ints(h_j), ints(s), n)) % (CIPHER_MOD as int)
}

/// A server-held PIR database: a square matrix of residues modulo the
/// plaintext modulus `2^mod_power`.
pub struct Database {
    /// The square plaintext matrix.
    pub matrix: Matrix,
    /// The plaintext modulus exponent.
    pub mod_power: u64,
}

impl Database {
    /// The plaintext modulus.
    pub open spec fn plain_mod_spec(self) -> u64 {
        (1u64 << self.mod_power) as u64
    }

    /// Well-formedness: a square matrix of cells below the plaintext
    /// modulus, with an exponent in the accepted regime.
    pub open spec fn wf(self) -> bool {
        &&& self.matrix.wf()
        &&& self.matrix.nrows == self.matrix.ncols
        &&& 1 <= self.mod_power <= MAX_MOD_POWER
        &&& self.matrix.bounded(self.plain_mod_spec())
    }

    /// Builds a database from a square matrix, rejecting a non-square
    /// shape, an exponent outside the regime, or an over-range cell.
    pub fn from_matrix(matrix: Matrix, mod_power: u64) -> (r: Result<Database, PirError>)
        requires
            matrix.wf(),
        ensures
            match r {
                Ok(db) => {
                    &&& db.wf()
                    &&& db.matrix@ == matrix@
                    &&& db.mod_power == mod_power
                    &&& db.matrix.nrows == matrix.nrows
                },
                Err(e) => {
                    ||| (e == PirError::ModulusTooLarge && !(1 <= mod_power <= MAX_MOD_POWER))
                    ||| (e == PirError::DimensionMismatch && matrix.nrows != matrix.ncols)
                    ||| (e == PirError::ModulusTooLarge && !matrix.bounded(
                        (1u64 << mod_power) as u64,
                    ))
                },
            },
    {
        if mod_power < 1 || mod_power > MAX_MOD_POWER {
            return Err(PirError::ModulusTooLarge);
        }
        if matrix.nrows != matrix.ncols {
            return Err(PirError::DimensionMismatch);
        }
        let p = 1u64 << mod_power;
        let mut j: usize = 0;
        while j < matrix.nrows
            invariant
                j <= matrix.nrows,
                matrix.wf(),
                matrix.nrows == matrix.ncols,
                p == (1u64 << mod_power),
                forall|t: int, l: int|
                    0 <= t < j && 0 <= l < matrix.ncols ==> #[trigger] matrix@[t][l] < p,
            decreases matrix.nrows - j,
        {
            let mut l: usize = 0;
            while l < matrix.ncols
                invariant
                    l <= matrix.ncols,
                    j < matrix.nrows,
                    matrix.wf(),
                    matrix.nrows == matrix.ncols,
                    p == (1u64 << mod_power),
                    forall|t: int, u: int|
                        0 <= t < j && 0 <= u < matrix.ncols ==> #[trigger] matrix@[t][u] < p,
                    forall|u: int| 0 <= u < l ==> #[trigger] matrix@[j as int][u] < p,
                decreases matrix.ncols - l,
            {
                proof {
                    assert(matrix@[j as int].len() == matrix.ncols);
                    assert(matrix@[j as int] == matrix.data@[j as int]@);
                }
                if matrix.data[j][l] >= p {
                    return Err(PirError::ModulusTooLarge);
                }
                l += 1;
            }
            j += 1;
        }
        Ok(Database { matrix, mod_power })
    }

    /// Builds a database from a flat row-major vector, padding with zeros
    /// to the smallest square that holds every value.
    pub fn from_vector(data: Vec<u64>, mod_power: u64) -> (r: Result<Database, PirError>)
        requires
            data@.len() <= 0x3FFF_FFFF,
        ensures
            match r {
                Ok(db) => {
                    &&& db.wf()
                    &&& db.mod_power == mod_power
                    &&& db.side_len_spec() * db.side_len_spec() >= data@.len()
                    &&& (data@.len() == 0 ==> db.side_len_spec() == 0)
                    &&& (db.side_len_spec() >= 1 ==> (db.side_len_spec() - 1) * (
                    db.side_len_spec() - 1) < data@.len())
                    &&& forall|t: int|
                        0 <= t < data@.len()
                            ==> db.matrix@[t / db.side_len_spec() as int][t
                                % db.side_len_spec() as int] == #[trigger] data@[t]
                    &&& forall|j: int, l: int|
                        0 <= j < db.side_len_spec() && 0 <= l < db.side_len_spec() && j * (
                        db.side_len_spec() as int) + l >= data@.len()
                            ==> #[trigger] db.matrix@[j][l] == 0
                },
                Err(e) => {
                    ||| (e == PirError::ModulusTooLarge && !(1 <= mod_power <= MAX_MOD_POWER))
                    ||| (e == PirError::ModulusTooLarge && exists|t: int|
                        0 <= t < data@.len() && #[trigger] data@[t] >= (1u64 << mod_power))
                },
            },
    {
        if mod_power < 1 || mod_power > MAX_MOD_POWER {
            return Err(PirError::ModulusTooLarge);
        }
        let p = 1u64 << mod_power;
        let n = data.len();
        let mut idx: usize = 0;
        while idx < n
            invariant
                idx <= n,
                n == data@.len(),
                p == (1u64 << mod_power),
                forall|t: int| 0 <= t < idx ==> #[trigger] data@[t] < p,
            decreases n - idx,
        {
            if data[idx] >= p {
                return Err(PirError::ModulusTooLarge);
            }
            idx += 1;
        }
        // The smallest side whose square covers the data.
        let mut side: usize = 0;
        while side * side < n
            invariant
                side <= n,
                n <= 0x3FFF_FFFF,
                side * side <= 0x4000_0000,
                side >= 1 ==> (side - 1) * (side - 1) < n,
            decreases n - side,
        {
            proof {
                assert(side < n && (side + 1) * (side + 1) <= 0x4000_0000) by (nonlinear_arith)
                    requires
                        side * side < n,
                        n <= 0x3FFF_FFFF,
                        side >= 0,
                ;
            }
            side += 1;
        }
        let mut rows: Vec<Vec<u64>> = Vec::new();
        let mut j: usize = 0;
        while j < side
            invariant
                j <= side,
                n == data@.len(),
                side * side >= n,
                side * side <= usize::MAX,
                p == (1u64 << mod_power),
                forall|t: int| 0 <= t < n ==> #[trigger] data@[t] < p,
                rows@.len() == j,
                forall|t: int| #![trigger rows@[t]] 0 <= t < j ==> rows@[t]@.len() == side,
                forall|t: int, l: int|
                    #![trigger rows@[t]@[l]]
                    0 <= t < j && 0 <= l < side
                        ==> rows@[t]@[l] == (if t * side + l < n {
                            data@[t * side + l]
                        } else {
                            0u64
                        }),
            decreases side - j,
        {
            proof {
                assert(j * side + side <= side * side) by (nonlinear_arith)
                    requires
                        0 <= j < side,
                ;
            }
            let base = j * side;
            let mut row: Vec<u64> = Vec::new();
            let mut l: usize = 0;
            while l < side
                invariant
                    l <= side,
                    j < side,
                    n == data@.len(),
                    base == j * side,
                    base + side <= side * side,
                    side * side <= usize::MAX,
                    p == (1u64 << mod_power),
                    forall|t: int| 0 <= t < n ==> #[trigger] data@[t] < p,
                    row@.len() == l,
                    forall|t: int|
                        0 <= t < l
                            ==> #[trigger] row@[t] == (if j * side + t < n {
                                data@[j * side + t]
                            } else {
                                0u64
                            }),
                decreases side - l,
            {
                let cell = if base + l < n {
                    data[base + l]
                } else {
                    0u64
                };
                row.push(cell);
                l += 1;
            }
            rows.push(row);
            j += 1;
        }
        let matrix = Matrix { data: rows, nrows: side, ncols: side };
        let db = Database { matrix, mod_power };
        proof {
            lemma_shift_monotone(mod_power);
            assert forall|t: int| #![trigger db.matrix@[t]] 0 <= t < side implies
                db.matrix@[t].len() == side && forall|l: int|
                    0 <= l < side ==> #[trigger] db.matrix@[t][l] < p by {
                assert(db.matrix@[t] == rows@[t]@);
                assert forall|l: int| 0 <= l < side implies #[trigger] db.matrix@[t][l] < p by {
                    assert(rows@[t]@[l] == (if t * side + l < n {
                        data@[t * side + l]
                    } else {
                        0u64
                    }));
                    if t * side + l < n {
                        assert(data@[t * side + l] < p);
                    }
                }
            }
            assert forall|t: int| 0 <= t < data@.len() implies db.matrix@[t / side as int][t
                % side as int] == #[trigger] data@[t] by {
                let j = t / side as int;
                let l = t % side as int;
                vstd::arithmetic::div_mod::lemma_fundamental_div_mod(t, side as int);
                lemma_mod_bound(t, side as int);
                assert(j * side == side * j) by (nonlinear_arith);
                assert(j * side + l == t);
                assert(0 <= j < side) by (nonlinear_arith)
                    requires
                        j * side + l == t,
                        0 <= t < side * side,
                        0 <= l < side,
                ;
                assert(db.matrix@[j] == rows@[j]@);
                assert(rows@[j]@[l] == (if j * side + l < n {
                    data@[j * side + l]
                } else {
                    0u64
                }));
            }
        }
        Ok(db)
    }

    /// A database of the given side length filled with uniform residues,
    /// for self-tests.
    pub fn new_random(side: usize, mod_power: u64) -> (r: Result<Database, PirError>)
        requires
            side * side <= usize::MAX,
        ensures
            match r {
                Ok(db) => db.wf() && db.mod_power == mod_power && db.side_len_spec() == side,
                Err(e) => e == PirError::ModulusTooLarge && !(1 <= mod_power <= MAX_MOD_POWER),
            },
    {
        if mod_power < 1 || mod_power > MAX_MOD_POWER {
            return Err(PirError::ModulusTooLarge);
        }
        let p = 1u64 << mod_power;
        proof {
            lemma_shift_monotone(mod_power);
        }
        let words = fresh_words(side * side);
        let mut rows: Vec<Vec<u64>> = Vec::new();
        let mut j: usize = 0;
        while j < side
            invariant
                j <= side,
                side * side <= usize::MAX,
                words@.len() == side * side,
                p == (1u64 << mod_power),
                p >= 2,
                rows@.len() == j,
                forall|t: int| #![trigger rows@[t]] 0 <= t < j ==> rows@[t]@.len() == side,
                forall|t: int, l: int|
                    #![trigger rows@[t]@[l]]
                    0 <= t < j && 0 <= l < side ==> rows@[t]@[l] < p,
            decreases side - j,
        {
            proof {
                assert(j * side + side <= side * side) by (nonlinear_arith)
                    requires
                        0 <= j < side,
                ;
            }
            let base = j * side;
            let mut row: Vec<u64> = Vec::new();
            let mut l: usize = 0;
            while l < side
                invariant
                    l <= side,
                    j < side,
                    base == j * side,
                    base + side <= side * side,
                    side * side <= usize::MAX,
                    words@.len() == side * side,
                    p >= 2,
                    row@.len() == l,
                    forall|t: int| 0 <= t < l ==> #[trigger] row@[t] < p,
                decreases side - l,
            {
                row.push(words[base + l] % p);
                l += 1;
            }
            rows.push(row);
            j += 1;
        }
        let matrix = Matrix { data: rows, nrows: side, ncols: side };
        Ok(Database { matrix, mod_power })
    }

    /// The side length of the square database.
    pub open spec fn side_len_spec(self) -> usize {
        self.matrix.nrows
    }

    /// The side length of the square database.
    pub fn side_len(&self) -> (r: usize)
        ensures
            r == self.side_len_spec(),
    {
        self.matrix.nrows
    }
}

/// Splits an accepted plaintext modulus into its scaling factor
/// `delta = q / p`, or reports that the modulus is not accepted.
pub fn delta_for(plain_mod: u64) -> (r: Option<u64>)
    ensures
        match r {
            Some(d) => {
                &&& is_plain_mod(plain_mod)
                &&& (d as int) * (plain_mod as int) == CIPHER_MOD as int
                &&& d == CIPHER_MOD / plain_mod
                &&& d % 2 == 0
                &&& d >= 0x1000
                &&& 2 <= plain_mod <= 0x10_0000
            },
            None => !is_plain_mod(plain_mod),
        },
{
    let mut k: u64 = 1;
    while k <= MAX_MOD_POWER
        invariant
            1 <= k <= MAX_MOD_POWER + 1,
            forall|t: u64| 1 <= t < k ==> plain_mod != (1u64 << t),
        decreases MAX_MOD_POWER + 1 - k,
    {
        if (1u64 << k) == plain_mod {
            let d = 1u64 << (32 - k);
            proof {
                lemma2_to64();
                lemma2_to64_rest();
                lemma_u64_pow2_no_overflow(k as nat);
                lemma_u64_pow2_no_overflow((32 - k) as nat);
                lemma_u64_shl_is_mul(1u64, k);
                lemma_u64_shl_is_mul(1u64, (32 - k) as u64);
                lemma_pow2_adds((32 - k) as nat, k as nat);
                if k < 20 {
                    lemma_pow2_strictly_increases(12, (32 - k) as nat);
                    lemma_pow2_strictly_increases(k as nat, 20);
                }
                if k > 1 {
                    lemma_pow2_strictly_increases(1, k as nat);
                }
                lemma_pow2_adds(1, (31 - k) as nat);
                assert(pow2((32 - k) as nat) == 2 * pow2((31 - k) as nat));
                assert((d as int) * (plain_mod as int) == CIPHER_MOD as int);
                lemma_div_by_multiple(d as int, plain_mod as int);
                assert(is_plain_mod(plain_mod)) by {
                    assert(1 <= k <= MAX_MOD_POWER && plain_mod == (1u64 << k));
                }
            }
            return Some(d);
        }
        k += 1;
    }
    proof {
        if is_plain_mod(plain_mod) {
            let t = choose|t: u64| 1 <= t <= MAX_MOD_POWER && plain_mod == (1u64 << t);
            assert(plain_mod != (1u64 << t));
        }
    }
    None
}

/// Generates the hint pair for a database under a caller-chosen seed: the
/// hint is a pure function of `(database, seed)`, so regeneration under the
/// same seed is idempotent.
pub fn setup_with_seed(db: &Database, secret_dimension: usize, seed: u64) -> (r: (u64, Matrix))
    requires
        db.wf(),
        secret_dimension >= 1,
        db.side_len_spec() * secret_dimension <= usize::MAX,
    ensures
        r.0 == seed,
        r.1.wf(),
        r.1.nrows == db.side_len_spec(),
        r.1.ncols == secret_dimension,
        r.1.bounded(CIPHER_MOD),
        r.1@ == hint_rows(db.matrix@, seed, db.side_len_spec() as int, secret_dimension as int),
{
    let side = db.matrix.nrows;
    let a = expand_a(seed, side, secret_dimension);
    proof {
        lemma_shift_monotone(db.mod_power);
        assert forall|j: int, l: int|
            0 <= j < db.matrix@.len() && 0 <= l < db.matrix@[j].len()
                implies #[trigger] db.matrix@[j][l] < CIPHER_MOD by {
            assert(db.matrix@[j][l] < db.plain_mod_spec());
        }
    }
    let h = db.matrix.mul_mat_mod(&a);
    proof {
        assert(h@ =~= hint_rows(
            db.matrix@,
            seed,
            db.side_len_spec() as int,
            secret_dimension as int,
        )) by {
            assert forall|j: int|
                0 <= j < h@.len() implies h@[j] =~= hint_rows(
                db.matrix@,
                seed,
                db.side_len_spec() as int,
                secret_dimension as int,
            )[j] by {
                assert(h@[j].len() == secret_dimension);
            }
        }
    }
    (seed, h)
}

/// Generates the hint pair for a database under a fresh seed.
pub fn setup(db: &Database, secret_dimension: usize) -> (r: (u64, Matrix))
    requires
        db.wf(),
        secret_dimension >= 1,
        db.side_len_spec() * secret_dimension <= usize::MAX,
    ensures
        r.1.wf(),
        r.1.nrows == db.side_len_spec(),
        r.1.ncols == secret_dimension,
        r.1.bounded(CIPHER_MOD),
        r.1@ == hint_rows(db.matrix@, r.0, db.side_len_spec() as int, secret_dimension as int),
{
    let seed = gen_seed();
    setup_with_seed(db, secret_dimension, seed)
}

/// The server's answer on the uncompressed path: `D * u mod q`. Rejects a
/// query vector of the wrong length or with an out-of-range entry.
pub fn answer_uncompressed(db: &Database, query: &Vec<u64>) -> (r: Result<Vec<u64>, PirError>)
    requires
        db.wf(),
    ensures
        match r {
            Ok(a) => {
                &&& query@.len() == db.side_len_spec()
                &&& forall|t: int| 0 <= t < query@.len() ==> #[trigger] query@[t] < CIPHER_MOD
                &&& a@.len() == db.side_len_spec()
                &&& forall|j: int|
                    0 <= j < a@.len()
                        ==> #[trigger] a@[j] == dot_to(
                            ints(db.matrix@[j]),
                            ints(query@),
                            db.side_len_spec() as int,
                        ) % (CIPHER_MOD as int)
                &&& forall|j: int| 0 <= j < a@.len() ==> #[trigger] a@[j] < CIPHER_MOD
            },
            Err(e) => {
                &&& e == PirError::DimensionMismatch
                &&& (query@.len() != db.side_len_spec() || exists|t: int|
                    0 <= t < query@.len() && #[trigger] query@[t] >= CIPHER_MOD)
            },
        },
{
    if query.len() != db.matrix.ncols {
        return Err(PirError::DimensionMismatch);
    }
    let mut t: usize = 0;
    while t < query.len()
        invariant
            t <= query@.len(),
            forall|i: int| 0 <= i < t ==> #[trigger] query@[i] < CIPHER_MOD,
        decreases query@.len() - t,
    {
        if query[t] >= CIPHER_MOD {
            return Err(PirError::DimensionMismatch);
        }
        t += 1;
    }
    proof {
        lemma_shift_monotone(db.mod_power);
        assert forall|j: int, l: int|
            0 <= j < db.matrix@.len() && 0 <= l < db.matrix@[j].len()
                implies #[trigger] db.matrix@[j][l] < CIPHER_MOD by {
            assert(db.matrix@[j][l] < db.plain_mod_spec());
        }
    }
    Ok(db.matrix.mul_vec_mod(query))
}

/// Builds an encrypted query for record index `index` of a database of the
/// given side length: a one-hot plaintext scaled by `delta`, encrypted
/// under a fresh secret with fresh narrow errors.
pub fn query_noise(
    index: usize,
    side_len: usize,
    secret_dimension: usize,
    server_hint: u64,
    plain_mod: u64,
    err_bound: u64,
) -> (r: Result<(ClientState, Vec<u64>), PirError>)
    requires
        side_len >= 1,
        secret_dimension >= 1,
        side_len * secret_dimension <= usize::MAX,
        1 <= err_bound <= CIPHER_MOD / 4,
    ensures
        match r {
            Ok((st, u)) => {
                &&& is_plain_mod(plain_mod)
                &&& index < side_len
                &&& st.index == index
                &&& st.secret@.len() == secret_dimension
                &&& forall|t: int|
                    0 <= t < st.secret@.len() ==> #[trigger] st.secret@[t] < CIPHER_MOD
                &&& st.err@.len() == side_len
                &&& forall|t: int| 0 <= t < st.err@.len() ==> #[trigger] st.err@[t] < CIPHER_MOD
                &&& forall|t: int|
                    0 <= t < st.err@.len()
                        ==> -(err_bound as int) <= centered(#[trigger] st.err@[t])
                            <= err_bound as int
                &&& u@.len() == side_len
                &&& forall|t: int| 0 <= t < u@.len() ==> #[trigger] u@[t] < CIPHER_MOD
                &&& u@ == lwe_cipher(
                    a_matrix(server_hint, side_len as int, secret_dimension as int),
                    st.secret@,
                    centered_seq(st.err@),
                    one_hot(side_len as int, index as int),
                    (CIPHER_MOD / plain_mod) as u64,
                    secret_dimension as int,
                )
            },
            Err(e) => {
                ||| (e == PirError::ModulusTooLarge && !is_plain_mod(plain_mod))
                ||| (e == PirError::IndexOutOfRange && is_plain_mod(plain_mod) && index
                    >= side_len)
            },
        },
{
    let delta = match delta_for(plain_mod) {
        Some(d) => d,
        None => {
            return Err(PirError::ModulusTooLarge);
        },
    };
    if index >= side_len {
        return Err(PirError::IndexOutOfRange);
    }
    let s = gen_secret(secret_dimension);
    let e = sample_error(side_len, err_bound);
    let a = expand_a(server_hint, side_len, secret_dimension);
    let mut x: Vec<u64> = Vec::new();
    let mut t: usize = 0;
    while t < side_len
        invariant
            t <= side_len,
            x@.len() == t,
            forall|i: int|
                0 <= i < t
                    ==> #[trigger] x@[i] == (if i == index as int { 1u64 } else { 0u64 }),
        decreases side_len - t,
    {
        if t == index {
            x.push(1);
        } else {
            x.push(0);
        }
        t += 1;
    }
    proof {
        assert(x@ =~= one_hot(side_len as int, index as int));
        assert(forall|i: int| 0 <= i < x@.len() ==> #[trigger] x@[i] < plain_mod);
    }
    let u = encrypt(&a, &s, &e, &x, delta, plain_mod);
    let st = ClientState { secret: s, index, err: Ghost(e@) };
    Ok((st, u))
}

/// Builds an encrypted query for record index `index` under the default
/// narrow error distribution.
pub fn query(
    index: usize,
    side_len: usize,
    secret_dimension: usize,
    server_hint: u64,
    plain_mod: u64,
) -> (r: Result<(ClientState, Vec<u64>), PirError>)
    requires
        side_len >= 1,
        secret_dimension >= 1,
        side_len * secret_dimension <= usize::MAX,
    ensures
        match r {
            Ok((st, u)) => {
                &&& is_plain_mod(plain_mod)
                &&& index < side_len
                &&& st.index == index
                &&& st.secret@.len() == secret_dimension
                &&& forall|t: int|
                    0 <= t < st.secret@.len() ==> #[trigger] st.secret@[t] < CIPHER_MOD
                &&& st.err@.len() == side_len
                &&& forall|t: int| 0 <= t < st.err@.len() ==> #[trigger] st.err@[t] < CIPHER_MOD
                &&& forall|t: int|
                    0 <= t < st.err@.len()
                        ==> -(ERR_BOUND as int) <= centered(#[trigger] st.err@[t])
                            <= ERR_BOUND as int
                &&& u@.len() == side_len
                &&& forall|t: int| 0 <= t < u@.len() ==> #[trigger] u@[t] < CIPHER_MOD
                &&& u@ == lwe_cipher(
                    a_matrix(server_hint, side_len as int, secret_dimension as int),
                    st.secret@,
                    centered_seq(st.err@),
                    one_hot(side_len as int, index as int),
                    (CIPHER_MOD / plain_mod) as u64,
                    secret_dimension as int,
                )
            },
            Err(e) => {
                ||| (e == PirError::ModulusTooLarge && !is_plain_mod(plain_mod))
                ||| (e == PirError::IndexOutOfRange && is_plain_mod(plain_mod) && index
                    >= side_len)
            },
        },
{
    query_noise(index, side_len, secret_dimension, server_hint, plain_mod, ERR_BOUND)
}

/// Builds an encrypted scoring probe: the plaintext vector itself, scaled
/// by `delta` and encrypted under a fresh secret with fresh narrow errors.
/// The server's answer then carries every record's dot product with the
/// probe, recoverable modulo the plaintext modulus.
pub fn probe_query(
    probe: &Vec<u64>,
    side_len: usize,
    secret_dimension: usize,
    server_hint: u64,
    plain_mod: u64,
) -> (r: Result<(ClientState, Vec<u64>), PirError>)
    requires
        side_len >= 1,
        secret_dimension >= 1,
        side_len * secret_dimension <= usize::MAX,
    ensures
        match r {
            Ok((st, u)) => {
                &&& is_plain_mod(plain_mod)
                &&& probe@.len() == side_len
                &&& forall|t: int| 0 <= t < probe@.len() ==> #[trigger] probe@[t] < plain_mod
                &&& st.index == 0
                &&& st.secret@.len() == secret_dimension
                &&& forall|t: int|
                    0 <= t < st.secret@.len() ==> #[trigger] st.secret@[t] < CIPHER_MOD
                &&& st.err@.len() == side_len
                &&& forall|t: int| 0 <= t < st.err@.len() ==> #[trigger] st.err@[t] < CIPHER_MOD
                &&& forall|t: int|
                    0 <= t < st.err@.len()
                        ==> -(ERR_BOUND as int) <= centered(#[trigger] st.err@[t])
                            <= ERR_BOUND as int
                &&& u@.len() == side_len
                &&& forall|t: int| 0 <= t < u@.len() ==> #[trigger] u@[t] < CIPHER_MOD
                &&& u@ == lwe_cipher(
                    a_matrix(server_hint, side_len as int, secret_dimension as int),
                    st.secret@,
                    centered_seq(st.err@),
                    probe@,
                    (CIPHER_MOD / plain_mod) as u64,
                    secret_dimension as int,
                )
            },
            Err(e) => {
                ||| (e == PirError::ModulusTooLarge && !is_plain_mod(plain_mod))
                ||| (e == PirError::DimensionMismatch && is_plain_mod(plain_mod) && (probe@.len()
                    != side_len || exists|t: int|
                    0 <= t < probe@.len() && #[trigger] probe@[t] >= plain_mod))
            },
        },
{
    let delta = match delta_for(plain_mod) {
        Some(d) => d,
        None => {
            return Err(PirError::ModulusTooLarge);
        },
    };
    if probe.len() != side_len {
        return Err(PirError::DimensionMismatch);
    }
    let mut t: usize = 0;
    while t < side_len
        invariant
            t <= side_len,
            is_plain_mod(plain_mod),
            probe@.len() == side_len,
            forall|i: int| 0 <= i < t ==> #[trigger] probe@[i] < plain_mod,
        decreases side_len - t,
    {
        if probe[t] >= plain_mod {
            proof {
                assert(probe@[t as int] >= plain_mod);
            }
            return Err(PirError::DimensionMismatch);
        }
        t += 1;
    }
    let s = gen_secret(secret_dimension);
    let e = sample_error(side_len, ERR_BOUND);
    let a = expand_a(server_hint, side_len, secret_dimension);
    let u = encrypt(&a, &s, &e, probe, delta, plain_mod);
    let st = ClientState { secret: s, index: 0, err: Ghost(e@) };
    Ok((st, u))
}

/// A database with pairs of plaintext cells packed into single words:
/// every cell is below `2^21`, so two fit in one word with room to spare.
/// The plaintext it stands for is carried alongside as ghost data.
pub struct CompressedDatabase {
    /// The packed rows: word `c` of a row holds cells `2c` and `2c + 1`.
    pub rows: Vec<Vec<u64>>,
    /// The side length of the original square database.
    pub side: usize,
    /// The plaintext modulus exponent.
    pub mod_power: u64,
    /// The original plaintext matrix.
    pub src: Ghost<Seq<Seq<u64>>>,
}

/// The number of packed words per row for a given side length.
pub open spec fn packed_width(side: int) -> int {
    (side + 1) / 2
}

/// The packed width computed without the off-by-one addition.
proof fn lemma_packed_width(side: int)
    requires
        side >= 0,
    ensures
        packed_width(side) == side / 2 + side % 2,
        2 * packed_width(side) >= side,
{
    vstd::arithmetic::div_mod::lemma_fundamental_div_mod(side, 2);
    lemma_mod_bound(side, 2);
    let h = side / 2;
    let b = side % 2;
    if b == 0 {
        vstd::arithmetic::div_mod::lemma_fundamental_div_mod_converse_div(side + 1, 2, h, 1);
    } else {
        vstd::arithmetic::div_mod::lemma_fundamental_div_mod_converse_div(side + 1, 2, h + 1, 0);
    }
}

impl CompressedDatabase {
    /// Well-formedness: the packed rows hold exactly the source cells,
    /// two per word with a `2^21` radix.
    pub open spec fn wf(self) -> bool {
        &&& self.side <= 0xFFFF_FFFF
        &&& self.src@.len() == self.side
        &&& forall|j: int| 0 <= j < self.side ==> (#[trigger] self.src@[j]).len() == self.side
        &&& forall|j: int, l: int|
            0 <= j < self.side && 0 <= l < self.side ==> #[trigger] self.src@[j][l] < 0x20_0000
        &&& self.rows@.len() == self.side
        &&& forall|j: int| #![trigger self.rows@[j]]
            0 <= j < self.side ==> self.rows@[j]@.len() == packed_width(self.side as int)
        &&& forall|j: int, c: int|
            #![trigger self.rows@[j]@[c]]
            0 <= j < self.side && 0 <= c < packed_width(self.side as int)
                ==> self.rows@[j]@[c] == self.src@[j][2 * c] + 0x20_0000 * (if 2 * c + 1
                < self.side {
                self.src@[j][2 * c + 1] as int
            } else {
                0
            })
    }
}

impl Database {
    /// Packs the database for the compressed answer path: two plaintext
    /// cells per word. The database invariant keeps the plaintext modulus
    /// below `2^21`, which is the precondition this path needs.
    pub fn compress(&self) -> (r: Result<CompressedDatabase, PirError>)
        requires
            self.wf(),
            self.side_len_spec() <= 0xFFFF_FFFF,
        ensures
            match r {
                Ok(c) => c.wf() && c.src@ == self.matrix@ && c.side == self.side_len_spec()
                    && c.mod_power == self.mod_power,
                Err(_) => false,
            },
    {
        let side = self.matrix.nrows;
        proof {
            lemma_shift_monotone(self.mod_power);
        }
        let mut rows: Vec<Vec<u64>> = Vec::new();
        let mut j: usize = 0;
        while j < side
            invariant
                j <= side,
                self.wf(),
                side == self.matrix.nrows,
                side <= 0xFFFF_FFFF,
                rows@.len() == j,
                forall|t: int| #![trigger rows@[t]]
                    0 <= t < j ==> rows@[t]@.len() == packed_width(side as int),
                forall|t: int, c: int|
                    #![trigger rows@[t]@[c]]
                    0 <= t < j && 0 <= c < packed_width(side as int)
                        ==> rows@[t]@[c] == self.matrix@[t][2 * c] + 0x20_0000 * (if 2 * c + 1
                        < side {
                        self.matrix@[t][2 * c + 1] as int
                    } else {
                        0
                    }),
            decreases side - j,
        {
            proof {
                lemma_shift_monotone(self.mod_power);
                lemma_packed_width(side as int);
            }
            let width = side / 2 + side % 2;
            let mut row: Vec<u64> = Vec::new();
            let mut c: usize = 0;
            while c < width
                invariant
                    c <= width,
                    j < side,
                    self.wf(),
                    side == self.matrix.nrows,
                    width == packed_width(side as int),
                    2 * width >= side,
                    self.plain_mod_spec() <= 0x10_0000,
                    row@.len() == c,
                    forall|t: int|
                        0 <= t < c
                            ==> #[trigger] row@[t] == self.matrix@[j as int][2 * t] + 0x20_0000 * (
                            if 2 * t + 1 < side {
                                self.matrix@[j as int][2 * t + 1] as int
                            } else {
                                0
                            }),
                decreases width - c,
            {
                proof {
                    assert(self.matrix@[j as int].len() == self.matrix.ncols);
                    assert(self.matrix@[j as int] == self.matrix.data@[j as int]@);
                    assert(2 * c < side);
                }
                let lo = self.matrix.data[j][2 * c];
                let hi = if 2 * c + 1 < side {
                    self.matrix.data[j][2 * c + 1]
                } else {
                    0u64
                };
                row.push(lo + 0x20_0000 * hi);
                c += 1;
            }
            rows.push(row);
            j += 1;
        }
        Ok(CompressedDatabase { rows, side, mod_power: self.mod_power, src: Ghost(self.matrix@) })
    }
}

/// The server's answer on the compressed path: unpacks each word into its
/// two cells on the fly and computes the same `D * u mod q` as the
/// uncompressed path, so recovery does not depend on which variant ran.
pub fn answer(cdb: &CompressedDatabase, query: &Vec<u64>) -> (r: Result<Vec<u64>, PirError>)
    requires
        cdb.wf(),
    ensures
        match r {
            Ok(a) => {
                &&& query@.len() == cdb.side
                &&& forall|t: int| 0 <= t < query@.len() ==> #[trigger] query@[t] < CIPHER_MOD
                &&& a@.len() == cdb.side
                &&& forall|j: int|
                    0 <= j < a@.len()
                        ==> #[trigger] a@[j] == dot_to(
                            ints(cdb.src@[j]),
                            ints(query@),
                            cdb.side as int,
                        ) % (CIPHER_MOD as int)
                &&& forall|j: int| 0 <= j < a@.len() ==> #[trigger] a@[j] < CIPHER_MOD
            },
            Err(e) => {
                &&& e == PirError::DimensionMismatch
                &&& (query@.len() != cdb.side || exists|t: int|
                    0 <= t < query@.len() && #[trigger] query@[t] >= CIPHER_MOD)
            },
        },
{
    if query.len() != cdb.side {
        return Err(PirError::DimensionMismatch);
    }
    let mut t: usize = 0;
    while t < query.len()
        invariant
            t <= query@.len(),
            forall|i: int| 0 <= i < t ==> #[trigger] query@[i] < CIPHER_MOD,
        decreases query@.len() - t,
    {
        if query[t] >= CIPHER_MOD {
            return Err(PirError::DimensionMismatch);
        }
        t += 1;
    }
    let side = cdb.side;
    proof {
        lemma_packed_width(side as int);
    }
    let width = side / 2 + side % 2;
    let mut out: Vec<u64> = Vec::new();
    let mut j: usize = 0;
    while j < side
        invariant
            j <= side,
            cdb.wf(),
            side == cdb.side,
            width == packed_width(side as int),
            query@.len() == side,
            forall|i: int| 0 <= i < query@.len() ==> #[trigger] query@[i] < CIPHER_MOD,
            out@.len() == j,
            forall|t: int|
                0 <= t < j
                    ==> #[trigger] out@[t] == dot_to(
                        ints(cdb.src@[t]),
                        ints(query@),
                        side as int,
                    ) % (CIPHER_MOD as int),
            forall|t: int| 0 <= t < out@.len() ==> #[trigger] out@[t] < CIPHER_MOD,
        decreases side - j,
    {
        let c = compressed_row_dot(cdb, query, j);
        out.push(c);
        j += 1;
    }
    Ok(out)
}

/// One row of the compressed answer: the exact dot product of the
/// unpacked source row with the query, reduced modulo `q`.
fn compressed_row_dot(cdb: &CompressedDatabase, query: &Vec<u64>, j: usize) -> (r: u64)
    requires
        cdb.wf(),
        j < cdb.side,
        query@.len() == cdb.side,
        forall|i: int| 0 <= i < query@.len() ==> #[trigger] query@[i] < CIPHER_MOD,
    ensures
        r == dot_to(ints(cdb.src@[j as int]), ints(query@), cdb.side as int)
            % (CIPHER_MOD as int),
        r < CIPHER_MOD,
{
    let ghost srow = ints(cdb.src@[j as int]);
    let ghost qv = ints(query@);
    let side = cdb.side;
    proof {
        lemma_packed_width(side as int);
        vstd::arithmetic::div_mod::lemma_div_is_ordered(side as int, 0xFFFF_FFFF, 2);
    }
    let width = side / 2 + side % 2;
    let mut acc: u128 = 0;
    let mut c: usize = 0;
    while c < width
        invariant
            c <= width,
            width <= 0x8000_0000,
            cdb.wf(),
            j < cdb.side,
            side == cdb.side,
            width == packed_width(side as int),
            2 * width >= side,
            query@.len() == side,
            forall|i: int| 0 <= i < query@.len() ==> #[trigger] query@[i] < CIPHER_MOD,
            srow == ints(cdb.src@[j as int]),
            qv == ints(query@),
            acc == dot_to(srow, qv, if 2 * c <= side { 2 * (c as int) } else { side as int }),
            acc <= 2 * (c as int) * ((CIPHER_MOD - 1) as int) * ((CIPHER_MOD - 1) as int),
        decreases width - c,
    {
        proof {
            assert(2 * c < side) by {
                lemma_packed_width(side as int);
                assert(c < (side + 1) / 2);
                assert(2 * (c + 1) <= side + 1) by {
                    vstd::arithmetic::div_mod::lemma_fundamental_div_mod(side + 1, 2);
                    lemma_mod_bound(side + 1, 2);
                }
            }
            assert(cdb.rows@[j as int]@.len() == width);
        }
        let w = cdb.rows[j][c];
        let lo = w % 0x20_0000;
        let hi = w / 0x20_0000;
        let ghost loi = cdb.src@[j as int][2 * c] as int;
        let ghost hii: int = if 2 * c + 1 < side {
            cdb.src@[j as int][2 * c + 1] as int
        } else {
            0
        };
        proof {
            assert(cdb.rows@[j as int]@[c as int] == loi + 0x20_0000 * hii);
            vstd::arithmetic::div_mod::lemma_fundamental_div_mod_converse(
                w as int,
                0x20_0000,
                hii,
                loi,
            );
            assert(lo == loi && hi == hii);
            assert(srow[2 * c] == loi);
            assert(qv[2 * c] == query@[2 * c]);
            assert((lo as u128) * (query@[2 * c] as u128) < 0x20_0000_0000_0000)
                by (nonlinear_arith)
                requires
                    lo < 0x20_0000u64,
                    query@[2 * c] < 0x1_0000_0000u64,
            ;
            assert(2 * (c as int) * ((CIPHER_MOD - 1) as int) * ((CIPHER_MOD - 1) as int)
                <= 0x1_0000_0000 * ((CIPHER_MOD - 1) as int) * ((CIPHER_MOD - 1) as int))
                by (nonlinear_arith)
                requires
                    0 <= (c as int) <= 0x8000_0000,
            ;
            assert(dot_to(srow, qv, 2 * (c as int) + 1) == dot_to(srow, qv, 2 * (c as int))
                + srow[2 * (c as int)] * qv[2 * (c as int)]);
        }
        proof {
            assert(acc <= 0x1_0000_0000 * ((CIPHER_MOD - 1) as int) * ((CIPHER_MOD - 1) as int));
            assert(0x1_0000_0000 * ((CIPHER_MOD - 1) as int) * ((CIPHER_MOD - 1) as int)
                < 0x1_0000_0000_0000_0000_0000_0000_0000_0000 - 0x40_0000_0000_0000)
                by (nonlinear_arith);
            assert(acc + (lo as u128) * (query@[2 * c] as u128) <= u128::MAX);
        }
        acc = acc + (lo as u128) * (query[2 * c] as u128);
        if 2 * c + 1 < side {
            proof {
                assert(srow[2 * (c as int) + 1] == hii);
                assert(qv[2 * (c as int) + 1] == query@[2 * (c as int) + 1]);
                assert((hi as u128) * (query@[2 * c + 1] as u128) < 0x20_0000_0000_0000)
                    by (nonlinear_arith)
                    requires
                        hi < 0x20_0000u64,
                        query@[2 * c + 1] < 0x1_0000_0000u64,
                ;
                assert(dot_to(srow, qv, 2 * (c as int) + 2) == dot_to(
                    srow,
                    qv,
                    2 * (c as int) + 1,
                ) + srow[2 * (c as int) + 1] * qv[2 * (c as int) + 1]);
            }
            acc = acc + (hi as u128) * (query[2 * c + 1] as u128);
        }
        proof {
            let cap = if 2 * (c + 1) <= side {
                2 * (c as int) + 2
            } else {
                side as int
            };
            lemma_dot_bound(srow, qv, cap, (CIPHER_MOD - 1) as int, (CIPHER_MOD - 1) as int);
            assert(cap * ((CIPHER_MOD - 1) as int) * ((CIPHER_MOD - 1) as int)
                <= (2 * (c as int) + 2) * ((CIPHER_MOD - 1) as int) * ((CIPHER_MOD - 1) as int))
                by (nonlinear_arith)
                requires
                    0 <= cap <= 2 * (c as int) + 2,
            ;
        }
        c += 1;
    }
    proof {
        assert(2 * (c as int) >= side);
        assert(acc == dot_to(srow, qv, side as int));
    }
    (acc % (CIPHER_MOD as u128)) as u64
}

/// Recovers the full targeted column: subtracts the hint contribution from
/// every answer coordinate and rounds to the plaintext modulus.
pub fn recover_row(
    state: &ClientState,
    hint: &Matrix,
    answer: &Vec<u64>,
    query_cipher: &Vec<u64>,
    plain_mod: u64,
) -> (r: Result<Vec<u64>, PirError>)
    requires
        hint.wf(),
        hint.bounded(CIPHER_MOD),
        forall|t: int| 0 <= t < state.secret@.len() ==> #[trigger] state.secret@[t] < CIPHER_MOD,
    ensures
        match r {
            Ok(out) => {
                &&& is_plain_mod(plain_mod)
                &&& hint.nrows == answer@.len()
                &&& hint.ncols == state.secret@.len()
                &&& query_cipher@.len() == answer@.len()
                &&& forall|t: int| 0 <= t < answer@.len() ==> #[trigger] answer@[t] < CIPHER_MOD
                &&& out@.len() == answer@.len()
                &&& forall|j: int|
                    0 <= j < out@.len()
                        ==> #[trigger] out@[j] == recover_round(
                            noisy_coord(answer@[j], hint@[j], state.secret@, hint.ncols as int),
                            plain_mod as int,
                        )
            },
            Err(e) => {
                ||| (e == PirError::ModulusTooLarge && !is_plain_mod(plain_mod))
                ||| (e == PirError::DimensionMismatch && is_plain_mod(plain_mod) && (hint.nrows
                    != answer@.len() || hint.ncols != state.secret@.len() || query_cipher@.len()
                    != answer@.len() || exists|t: int|
                    0 <= t < answer@.len() && #[trigger] answer@[t] >= CIPHER_MOD))
            },
        },
{
    let p = match delta_for(plain_mod) {
        Some(_) => plain_mod,
        None => {
            return Err(PirError::ModulusTooLarge);
        },
    };
    if hint.nrows != answer.len() || hint.ncols != state.secret.len() || query_cipher.len()
        != answer.len() {
        return Err(PirError::DimensionMismatch);
    }
    let mut t: usize = 0;
    while t < answer.len()
        invariant
            t <= answer@.len(),
            is_plain_mod(plain_mod),
            forall|i: int| 0 <= i < t ==> #[trigger] answer@[i] < CIPHER_MOD,
        decreases answer@.len() - t,
    {
        if answer[t] >= CIPHER_MOD {
            proof {
                assert(answer@[t as int] >= CIPHER_MOD);
            }
            return Err(PirError::DimensionMismatch);
        }
        t += 1;
    }
    let hs = hint.mul_vec_mod(&state.secret);
    let mut out: Vec<u64> = Vec::new();
    let mut j: usize = 0;
    while j < answer.len()
        invariant
            j <= answer@.len(),
            hint.wf(),
            hint.nrows == answer@.len(),
            hint.ncols == state.secret@.len(),
            is_plain_mod(p),
            2 <= p <= 0x10_0000,
            p == plain_mod,
            forall|i: int| 0 <= i < answer@.len() ==> #[trigger] answer@[i] < CIPHER_MOD,
            hs@.len() == answer@.len(),
            forall|i: int|
                0 <= i < hs@.len()
                    ==> #[trigger] hs@[i] == dot_to(
                        ints(hint@[i]),
                        ints(state.secret@),
                        hint.ncols as int,
                    ) % (CIPHER_MOD as int),
            forall|i: int| 0 <= i < hs@.len() ==> #[trigger] hs@[i] < CIPHER_MOD,
            out@.len() == j,
            forall|i: int|
                0 <= i < j
                    ==> #[trigger] out@[i] == recover_round(
                        noisy_coord(answer@[i], hint@[i], state.secret@, hint.ncols as int),
                        plain_mod as int,
                    ),
        decreases answer@.len() - j,
    {
        let c = recover_one(answer[j], hs[j], p);
        proof {
            let q = CIPHER_MOD as int;
            let dotv = dot_to(ints(hint@[j as int]), ints(state.secret@), hint.ncols as int);
            lemma_sub_mod_noop_right(answer@[j as int] as int, dotv, q);
            lemma_mod_add_multiples_vanish(answer@[j as int] - (dotv % q), q);
        }
        out.push(c);
        j += 1;
    }
    Ok(out)
}

/// Recovers the single cell at the queried index from an answer vector.
pub fn recover(
    state: &ClientState,
    hint: &Matrix,
    answer: &Vec<u64>,
    query_cipher: &Vec<u64>,
    plain_mod: u64,
) -> (r: Result<u64, PirError>)
    requires
        hint.wf(),
        hint.bounded(CIPHER_MOD),
        forall|t: int| 0 <= t < state.secret@.len() ==> #[trigger] state.secret@[t] < CIPHER_MOD,
    ensures
        match r {
            Ok(c) => {
                &&& is_plain_mod(plain_mod)
                &&& state.index < answer@.len()
                &&& c == recover_round(
                    noisy_coord(
                        answer@[state.index as int],
                        hint@[state.index as int],
                        state.secret@,
                        hint.ncols as int,
                    ),
                    plain_mod as int,
                )
            },
            Err(e) => {
                ||| (e == PirError::IndexOutOfRange && state.index >= answer@.len())
                ||| (e == PirError::ModulusTooLarge && state.index < answer@.len()
                    && !is_plain_mod(plain_mod))
                ||| (e == PirError::DimensionMismatch && state.index < answer@.len()
                    && is_plain_mod(plain_mod) && (hint.nrows != answer@.len() || hint.ncols
                    != state.secret@.len() || query_cipher@.len() != answer@.len() || exists|
                    t: int,
                |
                    0 <= t < answer@.len() && #[trigger] answer@[t] >= CIPHER_MOD))
            },
        },
{
    if state.index >= answer.len() {
        return Err(PirError::IndexOutOfRange);
    }
    let row = recover_row(state, hint, answer, query_cipher, plain_mod)?;
    Ok(row[state.index])
}

/// One coordinate of recovery: `(a - hs) mod q`, scaled down to the
/// plaintext modulus with rounding to the nearest step.
fn recover_one(a: u64, hs: u64, p: u64) -> (r: u64)
    requires
        a < CIPHER_MOD,
        hs < CIPHER_MOD,
        2 <= p <= 0x10_0000,
    ensures
        r == recover_round((a + CIPHER_MOD - hs) % (CIPHER_MOD as int), p as int),
        r < p,
{
    let y = (a + CIPHER_MOD - hs) % CIPHER_MOD;
    proof {
        lemma_mod_bound((a + CIPHER_MOD - hs) as int, CIPHER_MOD as int);
        assert(y * p + CIPHER_MOD / 2 <= u64::MAX) by (nonlinear_arith)
            requires
                y < 0x1_0000_0000u64,
                0 <= y,
                2 <= p <= 0x10_0000u64,
        ;
    }
    let scaled = (y * p + CIPHER_MOD / 2) / CIPHER_MOD;
    let r = scaled % p;
    proof {
        lemma_mod_bound((a + CIPHER_MOD - hs) as int, CIPHER_MOD as int);
        lemma_mod_bound((y * p + CIPHER_MOD / 2) as int / (CIPHER_MOD as int), p as int);
    }
    r
}

} // verus!
