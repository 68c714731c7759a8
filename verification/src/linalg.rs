//! Mathematical model of the dense mod-`q` arithmetic: exact integer dot
//! products over sequences, their linearity, their behaviour under modular
//! reduction, and the summation exchange that justifies the PIR hint.

use vstd::prelude::*;
use vstd::arithmetic::div_mod::{lemma_add_mod_noop, lemma_mul_mod_noop_general};

verus! {

/// The dot product of the first `k` coordinates of `a` and `b`, as an exact
/// (unbounded) integer.
pub open spec fn dot_to(a: Seq<int>, b: Seq<int>, k: int) -> int
    decreases k,
{
    if k <= 0 {
        0
    } else {
        dot_to(a, b, k - 1) + a[k - 1] * b[k - 1]
    }
}

/// The view of a machine-word vector as a mathematical integer sequence.
pub open spec fn ints(v: Seq<u64>) -> Seq<int> {
    v.map_values(|x: u64| x as int)
}

/// The view of a machine-word matrix as rows of mathematical integers.
pub open spec fn int_rows(m: Seq<Seq<u64>>) -> Seq<Seq<int>> {
    m.map_values(|r: Seq<u64>| ints(r))
}

/// Column `l` of a row-major matrix, as a sequence of row count entries.
pub open spec fn column(m: Seq<Seq<int>>, l: int) -> Seq<int> {
    Seq::new(m.len(), |j: int| m[j][l])
}

/// The matrix-vector product `m * v`, exact, using the first `w` coordinates
/// of every row.
pub open spec fn mat_vec(m: Seq<Seq<int>>, v: Seq<int>, w: int) -> Seq<int> {
    Seq::new(m.len(), |j: int| dot_to(m[j], v, w))
}

/// Row `j` of the exact matrix-matrix product `d * a`, where `d` has `w`
/// relevant columns and `a` has `cols` relevant columns.
pub open spec fn mat_mul_row(d: Seq<int>, a: Seq<Seq<int>>, w: int, cols: int) -> Seq<int> {
    Seq::new(cols as nat, |l: int| dot_to(d, column(a, l), w))
}

/// A dot product against a prefix of zeros is zero.
pub proof fn lemma_dot_zero(a: Seq<int>, b: Seq<int>, k: int)
    requires
        forall|j: int| 0 <= j < k ==> b[j] == 0,
    ensures
        dot_to(a, b, k) == 0,
    decreases k,
{
    if k > 0 {
        lemma_dot_zero(a, b, k - 1);
    }
}

/// Linearity: if `y` decomposes pointwise as `b + t * c`, the dot product
/// decomposes the same way.
pub proof fn lemma_dot_linear(s: Seq<int>, y: Seq<int>, b: Seq<int>, c: Seq<int>, t: int, k: int)
    requires
        forall|j: int| 0 <= j < k ==> y[j] == b[j] + t * c[j],
    ensures
        dot_to(y, s, k) == dot_to(b, s, k) + t * dot_to(c, s, k),
    decreases k,
{
    if k > 0 {
        lemma_dot_linear(s, y, b, c, t, k - 1);
        assert((b[k - 1] + t * c[k - 1]) * s[k - 1]
            == b[k - 1] * s[k - 1] + t * (c[k - 1] * s[k - 1])) by (nonlinear_arith);
        assert(t * dot_to(c, s, k) == t * dot_to(c, s, k - 1) + t * (c[k - 1] * s[k - 1]))
            by (nonlinear_arith)
            requires
                dot_to(c, s, k) == dot_to(c, s, k - 1) + c[k - 1] * s[k - 1],
        ;
    }
}

/// A dot product with a one-hot vector (value `t` at index `i`, zero
/// elsewhere) picks out a single scaled coordinate.
pub proof fn lemma_dot_one_hot(a: Seq<int>, x: Seq<int>, i: int, t: int, k: int)
    requires
        forall|j: int| 0 <= j < k ==> x[j] == (if j == i { t } else { 0 }),
    ensures
        dot_to(a, x, k) == if 0 <= i < k { a[i] * t } else { 0 },
    decreases k,
{
    if k > 0 {
        lemma_dot_one_hot(a, x, i, t, k - 1);
    }
}

/// Congruence: reducing either operand of a dot product modulo `m`,
/// coordinate by coordinate, does not change the result modulo `m`.
pub proof fn lemma_dot_mod(a1: Seq<int>, b1: Seq<int>, a2: Seq<int>, b2: Seq<int>, k: int, m: int)
    requires
        m > 0,
        forall|j: int| 0 <= j < k ==> a1[j] % m == a2[j] % m,
        forall|j: int| 0 <= j < k ==> b1[j] % m == b2[j] % m,
    ensures
        dot_to(a1, b1, k) % m == dot_to(a2, b2, k) % m,
    decreases k,
{
    if k > 0 {
        lemma_dot_mod(a1, b1, a2, b2, k - 1, m);
        let p1 = a1[k - 1] * b1[k - 1];
        let p2 = a2[k - 1] * b2[k - 1];
        lemma_mul_mod_noop_general(a1[k - 1], b1[k - 1], m);
        lemma_mul_mod_noop_general(a2[k - 1], b2[k - 1], m);
        assert(p1 % m == p2 % m);
        lemma_add_mod_noop(dot_to(a1, b1, k - 1), p1, m);
        lemma_add_mod_noop(dot_to(a2, b2, k - 1), p2, m);
    }
}

/// Summation exchange: scoring the rows of `a` against `s` and then taking
/// the dot with `d` equals first folding `d` through the columns of `a` and
/// then taking the dot with `s`.  This is associativity `d * (a * s) ==
/// (d * a) * s`, the fact that lets a PIR client cancel the hint.
pub proof fn lemma_dot_exchange(d: Seq<int>, a: Seq<Seq<int>>, s: Seq<int>, cols: int, k: int)
    requires
        0 <= k <= a.len(),
        0 <= cols,
    ensures
        dot_to(d, mat_vec(a, s, cols), k) == dot_to(mat_mul_row(d, a, k, cols), s, cols),
    decreases k,
{
    let u = mat_vec(a, s, cols);
    if k == 0 {
        assert(dot_to(mat_mul_row(d, a, 0, cols), s, cols) == 0) by {
            lemma_dot_swap(mat_mul_row(d, a, 0, cols), s, cols);
            lemma_dot_zero(s, mat_mul_row(d, a, 0, cols), cols);
        }
    } else {
        lemma_dot_exchange(d, a, s, cols, k - 1);
        assert(u[k - 1] == dot_to(a[k - 1], s, cols));
        // Row k-1 extends each column dot by one term.
        let hk = mat_mul_row(d, a, k, cols);
        let hk1 = mat_mul_row(d, a, k - 1, cols);
        assert(forall|l: int| 0 <= l < cols ==> hk[l] == hk1[l] + d[k - 1] * #[trigger] a[k - 1][l]);
        lemma_dot_linear(s, hk, hk1, a[k - 1], d[k - 1], cols);
        assert(dot_to(a[k - 1], s, cols) == dot_to(s, a[k - 1], cols)) by {
            lemma_dot_swap(a[k - 1], s, cols);
        }
        assert(dot_to(d, u, k) == dot_to(d, u, k - 1) + d[k - 1] * dot_to(a[k - 1], s, cols));
    }
}

/// Commutativity of the dot product.
pub proof fn lemma_dot_swap(a: Seq<int>, b: Seq<int>, k: int)
    ensures
        dot_to(a, b, k) == dot_to(b, a, k),
    decreases k,
{
    if k > 0 {
        lemma_dot_swap(a, b, k - 1);
        assert(a[k - 1] * b[k - 1] == b[k - 1] * a[k - 1]) by (nonlinear_arith);
    }
}

/// A dot product of coordinatewise non-negative vectors is non-negative.
pub proof fn lemma_dot_nonneg(a: Seq<int>, b: Seq<int>, k: int)
    requires
        forall|j: int| 0 <= j < k ==> #[trigger] a[j] >= 0,
        forall|j: int| 0 <= j < k ==> #[trigger] b[j] >= 0,
    ensures
        dot_to(a, b, k) >= 0,
    decreases k,
{
    if k > 0 {
        lemma_dot_nonneg(a, b, k - 1);
        assert(a[k - 1] * b[k - 1] >= 0) by (nonlinear_arith)
            requires
                a[k - 1] >= 0,
                b[k - 1] >= 0,
        ;
    }
}

/// A dot product of `k` terms, each bounded in magnitude by `ba * bb`, is
/// bounded in magnitude by `k * ba * bb`.
pub proof fn lemma_dot_bound(a: Seq<int>, b: Seq<int>, k: int, ba: int, bb: int)
    requires
        0 <= k,
        0 <= ba,
        0 <= bb,
        forall|j: int| 0 <= j < k ==> 0 <= #[trigger] a[j] <= ba,
        forall|j: int| 0 <= j < k ==> -bb <= #[trigger] b[j] <= bb,
    ensures
        -(k * ba * bb) <= dot_to(a, b, k) <= k * ba * bb,
    decreases k,
{
    if k <= 0 {
    } else {
        lemma_dot_bound(a, b, k - 1, ba, bb);
        assert(-(ba * bb) <= a[k - 1] * b[k - 1] <= ba * bb) by (nonlinear_arith)
            requires
                0 <= a[k - 1] <= ba,
                -bb <= b[k - 1] <= bb,
        ;
        assert(k * ba * bb == (k - 1) * ba * bb + ba * bb) by (nonlinear_arith);
    }
}

} // verus!
