//! The embedding codec: deterministic quantisation of scaled sentence
//! embeddings into the plaintext lattice, and the square matrix that holds
//! one quantised embedding per column.
//!
//! The caller scales each real coordinate by the fixed factor and rounds
//! to a signed integer before handing it here; this module reduces the
//! signed value modulo the plaintext modulus (two's-complement style) and
//! lays the vectors out for the scoring round.

use vstd::prelude::*;
use vstd::arithmetic::div_mod::{lemma_mod_bound, lemma_small_mod};

use crate::matrix::Matrix;
use crate::params::PirError;

verus! {

/// The fixed scale factor between real embedding coordinates and the
/// integers handed to the quantiser.
pub const EMBEDDING_SCALE: u64 = 100;

/// The embedding dimension of the sentence model.
pub const EMBEDDING_DIM: usize = 384;

/// Reduces one signed scaled coordinate into `[0, p)`, mapping negative
/// values two's-complement style. Total: every `i64` input, including the
/// extremes, quantises without overflow.
pub fn quantize_coord(v: i64, plain_mod: u64) -> (r: u64)
    requires
        2 <= plain_mod,
    ensures
        r == (v as int) % (plain_mod as int),
        r < plain_mod,
{
    let p = plain_mod;
    if v >= 0 {
        let r = (v as u64) % p;
        proof {
            lemma_mod_bound(v as int, p as int);
        }
        r
    } else {
        let mag = (-(v as i128)) as u64;
        let m = mag % p;
        proof {
            let q = p as int;
            lemma_mod_bound(mag as int, q);
            // v = -mag; v mod p == (p - mag mod p) mod p
            vstd::arithmetic::div_mod::lemma_fundamental_div_mod(mag as int, q);
            let d = (mag as int) / q;
            assert(v as int == (-d - 1) * q + (q - (m as int))) by (nonlinear_arith)
                requires
                    mag as int == q * d + m,
                    v as int == -(mag as int),
            ;
            if m == 0 {
                assert(v as int == (-d) * q) by (nonlinear_arith)
                    requires
                        mag as int == q * d + m,
                        m == 0,
                        v as int == -(mag as int),
                ;
                assert((v as int) % q == 0) by {
                    lemma_mod_vanish_multiple(-d, q);
                }
            } else {
                assert((v as int) % q == (q - m) % q) by {
                    lemma_mod_vanish_multiple(-d - 1, q);
                }
                lemma_small_mod((q - m) as nat, q as nat);
            }
        }
        if m == 0 {
            0
        } else {
            p - m
        }
    }
}

/// `k * q + r` is congruent to `r` modulo `q`.
proof fn lemma_mod_vanish_multiple(k: int, q: int)
    requires
        q > 0,
    ensures
        forall|r: int| (k * q + r) % q == #[trigger] (r % q),
{
    assert forall|r: int| (k * q + r) % q == #[trigger] (r % q) by {
        assert(k * q == q * k) by (nonlinear_arith);
        vstd::arithmetic::div_mod::lemma_mod_multiples_vanish(k, r, q);
    }
}

/// Quantises a whole scaled embedding vector.
pub fn quantize_embedding(v: &Vec<i64>, plain_mod: u64) -> (r: Vec<u64>)
    requires
        2 <= plain_mod,
    ensures
        r@.len() == v@.len(),
        forall|t: int|
            0 <= t < v@.len() ==> #[trigger] r@[t] == (v@[t] as int) % (plain_mod as int),
        forall|t: int| 0 <= t < r@.len() ==> #[trigger] r@[t] < plain_mod,
{
    let mut out: Vec<u64> = Vec::new();
    let mut t: usize = 0;
    while t < v.len()
        invariant
            t <= v@.len(),
            2 <= plain_mod,
            out@.len() == t,
            forall|i: int|
                0 <= i < t ==> #[trigger] out@[i] == (v@[i] as int) % (plain_mod as int),
            forall|i: int| 0 <= i < t ==> #[trigger] out@[i] < plain_mod,
        decreases v@.len() - t,
    {
        out.push(quantize_coord(v[t], plain_mod));
        t += 1;
    }
    out
}

/// Builds the embedding database matrix: column `c` holds the quantised
/// embedding of record `c` exactly, rows beyond the embedding dimension
/// and columns beyond the record count are zero, and the matrix is square
/// with side `max(record count, embedding dimension)`.
pub fn build_embedding_matrix(embs: &Vec<Vec<u64>>, dim: usize, plain_mod: u64) -> (r: Result<
    Matrix,
    PirError,
>)
    requires
        1 <= dim,
        2 <= plain_mod,
        embs@.len() <= 0xFFFF,
        dim <= 0xFFFF,
    ensures
        match r {
            Ok(m) => {
                &&& forall|c: int|
                    0 <= c < embs@.len() ==> (#[trigger] embs@[c]@).len() == dim
                &&& forall|c: int, j: int|
                    0 <= c < embs@.len() && 0 <= j < dim ==> #[trigger] embs@[c]@[j] < plain_mod
                &&& m.wf()
                &&& m.nrows == m.ncols
                &&& m.nrows == (if embs@.len() > dim {
                    embs@.len() as int
                } else {
                    dim as int
                })
                &&& m.bounded(plain_mod)
                &&& forall|c: int, j: int|
                    0 <= c < embs@.len() && 0 <= j < dim
                        ==> #[trigger] m@[j][c] == embs@[c]@[j]
                &&& forall|c: int, j: int|
                    0 <= j < m.nrows && 0 <= c < m.ncols && !(c < embs@.len() && j < dim)
                        ==> #[trigger] m@[j][c] == 0
            },
            Err(e) => {
                &&& e == PirError::DimensionMismatch
                &&& (exists|c: int|
                    0 <= c < embs@.len() && (#[trigger] embs@[c]@).len() != dim) || (exists|
                    c: int,
                    j: int,
                |
                    0 <= c < embs@.len() && 0 <= j < embs@[c]@.len()
                        && #[trigger] embs@[c]@[j] >= plain_mod)
            },
        },
{
    let count = embs.len();
    let mut c: usize = 0;
    while c < count
        invariant
            c <= count,
            count == embs@.len(),
            forall|i: int| 0 <= i < c ==> (#[trigger] embs@[i]@).len() == dim,
            forall|i: int, j: int|
                #![trigger embs@[i]@[j]]
                0 <= i < c && 0 <= j < dim ==> embs@[i]@[j] < plain_mod,
        decreases count - c,
    {
        if embs[c].len() != dim {
            return Err(PirError::DimensionMismatch);
        }
        let mut j: usize = 0;
        while j < dim
            invariant
                j <= dim,
                c < count,
                count == embs@.len(),
                embs@[c as int]@.len() == dim,
                forall|t: int| 0 <= t < j ==> #[trigger] embs@[c as int]@[t] < plain_mod,
            decreases dim - j,
        {
            if embs[c][j] >= plain_mod {
                return Err(PirError::DimensionMismatch);
            }
            j += 1;
        }
        c += 1;
    }
    let side = if count > dim {
        count
    } else {
        dim
    };
    let mut data: Vec<Vec<u64>> = Vec::new();
    let mut j: usize = 0;
    while j < side
        invariant
            j <= side,
            count == embs@.len(),
            count <= side,
            dim <= side,
            forall|i: int| 0 <= i < count ==> (#[trigger] embs@[i]@).len() == dim,
            forall|i: int, t: int|
                #![trigger embs@[i]@[t]]
                0 <= i < count && 0 <= t < dim ==> embs@[i]@[t] < plain_mod,
            data@.len() == j,
            forall|u: int| #![trigger data@[u]] 0 <= u < j ==> data@[u]@.len() == side,
            forall|u: int, v: int|
                #![trigger data@[u]@[v]]
                0 <= u < j && 0 <= v < side
                    ==> data@[u]@[v] == (if v < count && u < dim {
                        embs@[v]@[u]
                    } else {
                        0u64
                    }),
        decreases side - j,
    {
        let mut row: Vec<u64> = Vec::new();
        let mut cc: usize = 0;
        while cc < side
            invariant
                cc <= side,
                j < side,
                count <= side,
                dim <= side,
                count == embs@.len(),
                forall|i: int| 0 <= i < count ==> (#[trigger] embs@[i]@).len() == dim,
                row@.len() == cc,
                forall|v: int|
                    0 <= v < cc
                        ==> #[trigger] row@[v] == (if v < count && (j as int) < dim {
                            embs@[v]@[j as int]
                        } else {
                            0u64
                        }),
            decreases side - cc,
        {
            let cell = if cc < count && j < dim {
                embs[cc][j]
            } else {
                0u64
            };
            row.push(cell);
            cc += 1;
        }
        data.push(row);
        j += 1;
    }
    let m = Matrix { data, nrows: side, ncols: side };
    proof {
        assert forall|u: int| 0 <= u < side implies (#[trigger] m@[u]).len() == side by {
            assert(m@[u] == data@[u]@);
        }
        assert forall|u: int, v: int|
            0 <= u < side && 0 <= v < side implies #[trigger] m@[u][v] == (if v < count && u
            < dim {
            embs@[v]@[u]
        } else {
            0u64
        }) by {
            assert(m@[u] == data@[u]@);
        }
    }
    Ok(m)
}

} // verus!
