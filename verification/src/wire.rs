//! The plain wire payloads of the HTTP protocol: encrypted query vectors,
//! answer vectors, the shared parameters, and a flattened matrix. The
//! transport layer serialises these; the library only shapes and checks
//! them.

use vstd::prelude::*;

use crate::matrix::Matrix;
use crate::params::{PirError, PirParams};

verus! {

/// An encrypted query vector as it travels to the server.
pub struct QueryRequest {
    /// The ciphertext coordinates.
    pub query: Vec<u64>,
}

/// The server's answer vector.
pub struct QueryResponse {
    /// The answer coordinates.
    pub response: Vec<u64>,
}

/// The shared parameters as published to clients.
pub struct ParamsData {
    /// The database side length.
    pub m: usize,
    /// The LWE secret dimension.
    pub n: usize,
    /// The ciphertext modulus.
    pub q: u64,
    /// The plaintext modulus.
    pub p: u64,
}

/// A matrix flattened row-major for transport.
pub struct MatrixResponse {
    /// Number of rows.
    pub rows: usize,
    /// Number of columns.
    pub cols: usize,
    /// The cells, row-major: entry `(j, l)` at position `j * cols + l`.
    pub data: Vec<u64>,
}

/// Flattens a matrix row-major for transport.
pub fn serialize_matrix(m: &Matrix) -> (r: MatrixResponse)
    requires
        m.wf(),
        m.nrows * m.ncols <= usize::MAX,
    ensures
        r.rows == m.nrows,
        r.cols == m.ncols,
        r.data@.len() == m.nrows * m.ncols,
        forall|j: int, l: int|
            0 <= j < m.nrows && 0 <= l < m.ncols
                ==> #[trigger] r.data@[j * (m.ncols as int) + l] == m@[j][l],
{
    let ghost nc = m.ncols as int;
    let mut data: Vec<u64> = Vec::new();
    let mut j: usize = 0;
    while j < m.nrows
        invariant
            j <= m.nrows,
            m.wf(),
            m.nrows * m.ncols <= usize::MAX,
            data@.len() == j * nc,
            nc == m.ncols as int,
            forall|i: int|
                0 <= i < data@.len() ==> #[trigger] data@[i] == m@[i / nc][i % nc],
        decreases m.nrows - j,
    {
        proof {
            assert(j * nc + nc <= m.nrows * m.ncols && j * nc >= 0) by (nonlinear_arith)
                requires
                    0 <= j < m.nrows,
                    nc == m.ncols as int,
                    nc >= 0,
            ;
        }
        let mut l: usize = 0;
        while l < m.ncols
            invariant
                l <= m.ncols,
                j < m.nrows,
                m.wf(),
                nc == m.ncols as int,
                0 <= j * nc,
                j * nc + nc <= m.nrows * m.ncols,
                m.nrows * m.ncols <= usize::MAX,
                data@.len() == j * nc + l,
                forall|i: int|
                    0 <= i < data@.len() ==> #[trigger] data@[i] == m@[i / nc][i % nc],
            decreases m.ncols - l,
        {
            proof {
                assert(m@[j as int].len() == m.ncols);
                assert(m@[j as int] == m.data@[j as int]@);
                vstd::arithmetic::div_mod::lemma_fundamental_div_mod_converse(
                    j * nc + l,
                    nc,
                    j as int,
                    l as int,
                );
            }
            data.push(m.data[j][l]);
            l += 1;
        }
        proof {
            assert((j + 1) * nc == j * nc + nc) by (nonlinear_arith);
        }
        j += 1;
    }
    proof {
        assert forall|j: int, l: int|
            0 <= j < m.nrows && 0 <= l < m.ncols implies #[trigger] data@[j * nc + l]
            == m@[j][l] by {
            assert(0 <= j * nc + l < data@.len() && data@.len() == m.nrows * m.ncols)
                by (nonlinear_arith)
                requires
                    0 <= j < m.nrows,
                    0 <= l < nc,
                    nc == m.ncols as int,
                    data@.len() == (m.nrows as int) * nc,
            ;
            vstd::arithmetic::div_mod::lemma_fundamental_div_mod_converse(
                j * nc + l,
                nc,
                j,
                l,
            );
        }
    }
    MatrixResponse { rows: m.nrows, cols: m.ncols, data }
}

/// Rebuilds a matrix from its flattened transport form, rejecting a
/// payload whose cell count does not match its dimensions.
pub fn deserialize_matrix(resp: &MatrixResponse) -> (r: Result<Matrix, PirError>)
    requires
        resp.rows * resp.cols <= usize::MAX,
    ensures
        match r {
            Ok(m) => {
                &&& m.wf()
                &&& m.nrows == resp.rows
                &&& m.ncols == resp.cols
                &&& resp.data@.len() == resp.rows * resp.cols
                &&& forall|j: int, l: int|
                    0 <= j < m.nrows && 0 <= l < m.ncols
                        ==> #[trigger] m@[j][l] == resp.data@[j * (resp.cols as int) + l]
            },
            Err(e) => {
                &&& e == PirError::DimensionMismatch
                &&& resp.data@.len() != resp.rows * resp.cols
            },
        },
{
    if resp.cols == 0 {
        if resp.data.len() != 0 {
            return Err(PirError::DimensionMismatch);
        }
    } else if resp.data.len() / resp.cols != resp.rows || resp.data.len() % resp.cols != 0 {
        proof {
            if resp.data@.len() == resp.rows * resp.cols {
                vstd::arithmetic::div_mod::lemma_fundamental_div_mod_converse(
                    resp.data@.len() as int,
                    resp.cols as int,
                    resp.rows as int,
                    0,
                );
            }
        }
        return Err(PirError::DimensionMismatch);
    }
    proof {
        if resp.cols == 0 {
            assert((resp.rows as int) * (resp.cols as int) == 0) by (nonlinear_arith)
                requires
                    resp.cols == 0,
            ;
        } else {
            vstd::arithmetic::div_mod::lemma_fundamental_div_mod(
                resp.data@.len() as int,
                resp.cols as int,
            );
            assert((resp.cols as int) * (resp.rows as int) == (resp.rows as int) * (
            resp.cols as int)) by (nonlinear_arith);
        }
    }
    let mut rows: Vec<Vec<u64>> = Vec::new();
    let mut j: usize = 0;
    while j < resp.rows
        invariant
            j <= resp.rows,
            resp.data@.len() == resp.rows * resp.cols,
            resp.rows * resp.cols <= usize::MAX,
            rows@.len() == j,
            forall|t: int| #![trigger rows@[t]] 0 <= t < j ==> rows@[t]@.len() == resp.cols,
            forall|t: int, u: int|
                #![trigger rows@[t]@[u]]
                0 <= t < j && 0 <= u < resp.cols
                    ==> rows@[t]@[u] == resp.data@[t * (resp.cols as int) + u],
        decreases resp.rows - j,
    {
        proof {
            assert(j * (resp.cols as int) + resp.cols <= resp.rows * resp.cols)
                by (nonlinear_arith)
                requires
                    0 <= j < resp.rows,
                    resp.cols >= 0,
            ;
        }
        let base = j * resp.cols;
        let mut row: Vec<u64> = Vec::new();
        let mut l: usize = 0;
        while l < resp.cols
            invariant
                l <= resp.cols,
                j < resp.rows,
                base == j * (resp.cols as int),
                base + resp.cols <= resp.rows * resp.cols,
                resp.data@.len() == resp.rows * resp.cols,
                resp.rows * resp.cols <= usize::MAX,
                row@.len() == l,
                forall|u: int|
                    0 <= u < l
                        ==> #[trigger] row@[u] == resp.data@[j * (resp.cols as int) + u],
            decreases resp.cols - l,
        {
            row.push(resp.data[base + l]);
            l += 1;
        }
        rows.push(row);
        j += 1;
    }
    Ok(Matrix { data: rows, nrows: resp.rows, ncols: resp.cols })
}

/// Publishes the shared parameters of a database.
pub fn serialize_params(params: &PirParams, side_len: usize) -> (r: ParamsData)
    requires
        params.valid(),
    ensures
        r.m == side_len,
        r.n == params.secret_dimension,
        r.q == crate::params::CIPHER_MOD,
        r.p == params.plain_mod_spec(),
{
    ParamsData {
        m: side_len,
        n: params.secret_dimension,
        q: crate::params::CIPHER_MOD,
        p: params.plain_mod(),
    }
}

/// Rebuilds the shared parameters from their published form: succeeds
/// exactly when the modulus is an accepted power of two and the secret
/// dimension is positive, so a payload built by `serialize_params` always
/// deserialises.
pub fn deserialize_params(data: &ParamsData) -> (r: Result<(PirParams, usize), PirError>)
    ensures
        match r {
            Ok((params, side)) => {
                &&& crate::pir::is_plain_mod(data.p)
                &&& data.n >= 1
                &&& params.valid()
                &&& side == data.m
                &&& params.secret_dimension == data.n
                &&& params.plain_mod_spec() == data.p
            },
            Err(e) => {
                ||| (e == PirError::ModulusTooLarge && !crate::pir::is_plain_mod(data.p))
                ||| (e == PirError::DimensionMismatch && crate::pir::is_plain_mod(data.p)
                    && data.n < 1)
            },
        },
{
    let delta = match crate::pir::delta_for(data.p) {
        Some(d) => d,
        None => {
            return Err(PirError::ModulusTooLarge);
        },
    };
    if data.n < 1 {
        return Err(PirError::DimensionMismatch);
    }
    let mut k: u64 = 1;
    while k <= crate::params::MAX_MOD_POWER
        invariant
            1 <= k <= crate::params::MAX_MOD_POWER + 1,
            data.n >= 1,
            crate::pir::is_plain_mod(data.p),
            forall|t: u64| 1 <= t < k ==> data.p != (1u64 << t),
        decreases crate::params::MAX_MOD_POWER + 1 - k,
    {
        if (1u64 << k) == data.p {
            let params = PirParams { secret_dimension: data.n, mod_power: k };
            return Ok((params, data.m));
        }
        k += 1;
    }
    proof {
        let t = choose|t: u64| 1 <= t <= crate::params::MAX_MOD_POWER && data.p == (1u64 << t);
        assert(data.p != (1u64 << t));
        assert(false);
    }
    Err(PirError::ModulusTooLarge)
}

} // verus!
