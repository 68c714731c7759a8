//! Regev-style LWE encryption: the ciphertext for a plaintext vector `x`
//! under secret `s`, public matrix `A` and error `e` is
//! `A*s + e + delta*x mod q`, coordinate by coordinate.
//!
//! Error coordinates are carried as residues modulo `q`; the signed value a
//! residue stands for is its centered representative.

use vstd::prelude::*;
use vstd::arithmetic::div_mod::{
    lemma_add_mod_noop_right, lemma_mod_add_multiples_vanish, lemma_small_mod,
};

use crate::linalg::{dot_to, ints};
use crate::matrix::Matrix;
use crate::params::CIPHER_MOD;

verus! {

/// The error sampler's default magnitude bound; a uniform draw from
/// `[-11, 11]` has standard deviation about 6.6.
pub const ERR_BOUND: u64 = 11;

/// The signed value in `(-q/2, q/2]` that a residue modulo `q` stands for.
pub open spec fn centered(v: u64) -> int {
    if v < CIPHER_MOD / 2 {
        v as int
    } else {
        v as int - CIPHER_MOD
    }
}

/// The centered representatives of a residue vector.
pub open spec fn centered_seq(v: Seq<u64>) -> Seq<int> {
    v.map_values(|x: u64| centered(x))
}

/// The one-hot indicator of index `i` in a vector of the given length.
pub open spec fn one_hot(len: int, i: int) -> Seq<u64> {
    Seq::new(len as nat, |j: int| if j == i { 1u64 } else { 0u64 })
}

/// The exact (pre-reduction) value of ciphertext coordinate `k`:
/// `<A_k, s> + e_k + delta * x_k`, with the error a signed integer.
pub open spec fn lwe_coord(
    a: Seq<Seq<u64>>,
    s: Seq<u64>,
    e: Seq<int>,
    x: Seq<u64>,
    delta: u64,
    n: int,
    k: int,
) -> int {
    dot_to(ints(a[k]), ints(s), n) + e[k] + (delta as int) * (x[k] as int)
}

/// The ciphertext vector: every coordinate of `lwe_coord`, reduced mod `q`.
pub open spec fn lwe_cipher(
    a: Seq<Seq<u64>>,
    s: Seq<u64>,
    e: Seq<int>,
    x: Seq<u64>,
    delta: u64,
    n: int,
) -> Seq<u64> {
    Seq::new(a.len(), |k: int| (lwe_coord(a, s, e, x, delta, n, k) % (CIPHER_MOD as int)) as u64)
}

/// The per-query state a client keeps from query to recovery: the ephemeral
/// secret, the targeted index, and (as ghost data) the error residues that
/// went into the ciphertext.
pub struct ClientState {
    /// The ephemeral LWE secret, discarded after recovery.
    pub secret: Vec<u64>,
    /// The record index this query targets.
    pub index: usize,
    /// The residues of the error vector behind the ciphertext.
    pub err: Ghost<Seq<u64>>,
}

/// A residue below `q` is congruent to its centered representative.
pub proof fn lemma_centered_congruent(v: u64)
    requires
        v < CIPHER_MOD,
    ensures
        centered(v) % (CIPHER_MOD as int) == v as int,
{
    let q = CIPHER_MOD as int;
    lemma_small_mod(v as nat, CIPHER_MOD as nat);
    if v >= CIPHER_MOD / 2 {
        lemma_mod_add_multiples_vanish(v - q, q);
    }
}

impl ClientState {
    /// Bundles an externally drawn secret into per-query client state, for
    /// callers that drive encryption themselves.
    pub fn assemble(secret: Vec<u64>, index: usize) -> (r: ClientState)
        ensures
            r.secret@ == secret@,
            r.index == index,
    {
        ClientState { secret, index, err: Ghost(Seq::empty()) }
    }
}

/// Encrypts the plaintext vector `x`: returns `A*s + e + delta*x mod q`,
/// where the signed error is the centered representative of `e`.
pub fn encrypt(a: &Matrix, s: &Vec<u64>, e: &Vec<u64>, x: &Vec<u64>, delta: u64, plain_mod: u64)
    -> (r: Vec<u64>)
    requires
        a.wf(),
        a.bounded(CIPHER_MOD),
        s@.len() == a.ncols,
        forall|t: int| 0 <= t < s@.len() ==> #[trigger] s@[t] < CIPHER_MOD,
        e@.len() == a.nrows,
        forall|t: int| 0 <= t < e@.len() ==> #[trigger] e@[t] < CIPHER_MOD,
        x@.len() == a.nrows,
        forall|t: int| 0 <= t < x@.len() ==> #[trigger] x@[t] < plain_mod,
        (delta as int) * (plain_mod as int) == CIPHER_MOD as int,
        delta >= 1,
    ensures
        r@.len() == a.nrows,
        forall|t: int| 0 <= t < r@.len() ==> #[trigger] r@[t] < CIPHER_MOD,
        r@ == lwe_cipher(a@, s@, centered_seq(e@), x@, delta, a.ncols as int),
{
    let n = a.ncols;
    let rows = a.nrows;
    let base = a.mul_vec_mod(s);
    let ghost es = centered_seq(e@);
    let mut out: Vec<u64> = Vec::new();
    let mut k: usize = 0;
    while k < rows
        invariant
            k <= rows,
            rows == a.nrows,
            n == a.ncols,
            a.wf(),
            base@.len() == rows,
            forall|t: int|
                0 <= t < rows
                    ==> #[trigger] base@[t] == dot_to(ints(a@[t]), ints(s@), n as int)
                        % (CIPHER_MOD as int),
            e@.len() == rows,
            forall|t: int| 0 <= t < e@.len() ==> #[trigger] e@[t] < CIPHER_MOD,
            es == centered_seq(e@),
            x@.len() == rows,
            forall|t: int| 0 <= t < x@.len() ==> #[trigger] x@[t] < plain_mod,
            (delta as int) * (plain_mod as int) == CIPHER_MOD as int,
            delta >= 1,
            out@.len() == k,
            forall|t: int| 0 <= t < k ==> #[trigger] out@[t] < CIPHER_MOD,
            forall|t: int|
                0 <= t < k
                    ==> #[trigger] out@[t] == lwe_coord(a@, s@, es, x@, delta, n as int, t)
                        % (CIPHER_MOD as int),
        decreases rows - k,
    {
        proof {
            assert((delta as int) * (x@[k as int] as int) < CIPHER_MOD as int)
                by (nonlinear_arith)
                requires
                    x@[k as int] < plain_mod,
                    (delta as int) * (plain_mod as int) == CIPHER_MOD as int,
                    delta >= 1,
            ;
        }
        let scaled: u64 = delta * x[k];
        let sum: u64 = base[k] + e[k] + scaled;
        let c: u64 = sum % CIPHER_MOD;
        proof {
            let q = CIPHER_MOD as int;
            let dotv = dot_to(ints(a@[k as int]), ints(s@), n as int);
            let esk = es[k as int];
            let dx = (delta as int) * (x@[k as int] as int);
            lemma_centered_congruent(e@[k as int]);
            // sum == dotv % q + esk % q + dx; fold both reductions away.
            lemma_add_mod_noop_right(dotv % q + dx, esk, q);
            lemma_add_mod_noop_right(esk + dx, dotv, q);
            assert(c == (dotv + esk + dx) % q);
        }
        out.push(c);
        k += 1;
    }
    proof {
        assert(out@ =~= lwe_cipher(a@, s@, es, x@, delta, a.ncols as int));
    }
    out
}

} // verus!
