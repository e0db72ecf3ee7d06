//! Hermitian conjugate, products, similarity transforms and trace, with the
//! capability traits that expose them.

use vstd::prelude::*;
use crate::complex::{CVal, Complex, c_add, c_conj, c_fits, c_mul, c_zero};
use crate::error::OperatorError;
use crate::matrix::{MatVal, Matrix, lemma_flat, lemma_split};

verus! {

/// The conjugate transpose: entry `(i, j)` is the conjugate of entry `(j, i)`.
pub open spec fn dagger(m: MatVal) -> MatVal {
    Seq::new(m.len(), |i: int| Seq::new(m.len(), |j: int| c_conj(m[j][i])))
}

/// Every entry of `m` has a conjugate within machine range.
pub open spec fn conj_fits(m: MatVal) -> bool {
    forall|i: int, j: int| 0 <= i < m.len() && 0 <= j < m.len() ==> c_fits(#[trigger] c_conj(m[i][j]))
}

/// The sum of the first `k` diagonal entries.
pub open spec fn diag_sum(m: MatVal, k: nat) -> CVal
    decreases k,
{
    if k == 0 {
        c_zero()
    } else {
        c_add(diag_sum(m, (k - 1) as nat), m[k - 1][k - 1])
    }
}

/// The trace: the sum of the diagonal entries.
pub open spec fn trace(m: MatVal) -> CVal {
    diag_sum(m, m.len())
}

/// Every partial sum of the trace fits in machine integers.
pub open spec fn trace_fits(m: MatVal) -> bool {
    forall|k: nat| k <= m.len() ==> c_fits(#[trigger] diag_sum(m, k))
}

/// `sum_{t < k} a[i][t] * b[t][j]`.
pub open spec fn dot(a: MatVal, b: MatVal, i: int, j: int, k: nat) -> CVal
    decreases k,
{
    if k == 0 {
        c_zero()
    } else {
        c_add(dot(a, b, i, j, (k - 1) as nat), c_mul(a[i][k - 1], b[k - 1][j]))
    }
}

/// The matrix product `a · b`.
pub open spec fn matmul(a: MatVal, b: MatVal) -> MatVal {
    Seq::new(a.len(), |i: int| Seq::new(a.len(), |j: int| dot(a, b, i, j, a.len())))
}

/// Every product and partial sum that `a · b` forms fits in machine integers.
pub open spec fn matmul_fits(a: MatVal, b: MatVal) -> bool {
    &&& forall|i: int, j: int, t: int|
        0 <= i < a.len() && 0 <= j < a.len() && 0 <= t < a.len() ==> c_fits(
            #[trigger] c_mul(a[i][t], b[t][j]),
        )
    &&& forall|i: int, j: int, k: nat|
        0 <= i < a.len() && 0 <= j < a.len() && k <= a.len() ==> c_fits(#[trigger] dot(a, b, i, j, k))
}

/// The similarity transform `u · x · u†`.
pub open spec fn conj_by(x: MatVal, u: MatVal) -> MatVal {
    matmul(matmul(u, x), dagger(u))
}

/// What `conjugate_by` needs to stay within machine integers.
pub open spec fn conj_by_fits(x: MatVal, u: MatVal) -> bool {
    conj_fits(u) && matmul_fits(u, x) && matmul_fits(matmul(u, x), dagger(u))
}

/// The conjugate transpose of `m`.
pub fn dagger_of(m: &Matrix) -> (r: Matrix)
    requires
        m.wf(),
        conj_fits(m@),
    ensures
        r.wf(),
        r.dim == m.dim,
        r@ == dagger(m@),
{
    let n = m.dim;
    let mlen = m.data.len();
    let total = n * n;
    let mut data: Vec<Complex> = Vec::new();
    let mut y: usize = 0;
    while y < total
        invariant
            m.wf(),
            mlen == n * n,
            n == m.dim,
            total == n * n,
            conj_fits(m@),
            y <= total,
            data@.len() == y,
            forall|z: int|
                0 <= z < y ==> #[trigger] data@[z]@ == c_conj(m@[z % n as int][z / n as int]),
        decreases total - y,
    {
        proof {
            assert(n > 0) by (nonlinear_arith)
                requires y < total, total == n * n;
            lemma_split(y as int, n as int, n as int);
        }
        let e = m.get(y % n, y / n);
        data.push(e.conj());
        y = y + 1;
    }
    let r = Matrix { dim: n, data };
    assert(r@ =~~= dagger(m@)) by {
        assert forall|i: int, j: int| 0 <= i < n && 0 <= j < n implies r@[i][j] == dagger(
            m@,
        )[i][j] by {
            lemma_flat(i, j, n as int, n as int);
        }
    }
    r
}

/// The sum of the diagonal entries of `m`.
pub fn trace_of(m: &Matrix) -> (r: Complex)
    requires
        m.wf(),
        trace_fits(m@),
    ensures
        r@ == trace(m@),
{
    let n = m.dim;
    let mut acc = Complex::zero();
    let mut k: usize = 0;
    while k < n
        invariant
            m.wf(),
            n == m.dim,
            trace_fits(m@),
            k <= n,
            acc@ == diag_sum(m@, k as nat),
        decreases n - k,
    {
        let e = m.get(k, k);
        proof {
            assert(c_fits(diag_sum(m@, (k + 1) as nat)));
        }
        acc = acc.plus(&e);
        k = k + 1;
    }
    acc
}

/// The matrix product `a · b` of two matrices of one dimension.
pub fn matmul_of(a: &Matrix, b: &Matrix) -> (r: Matrix)
    requires
        a.wf(),
        b.wf(),
        a.dim == b.dim,
        matmul_fits(a@, b@),
    ensures
        r.wf(),
        r.dim == a.dim,
        r@ == matmul(a@, b@),
{
    let n = a.dim;
    let alen = a.data.len();
    let total = n * n;
    let mut data: Vec<Complex> = Vec::new();
    let mut y: usize = 0;
    while y < total
        invariant
            a.wf(),
            b.wf(),
            alen == n * n,
            n == a.dim,
            n == b.dim,
            total == n * n,
            matmul_fits(a@, b@),
            y <= total,
            data@.len() == y,
            forall|z: int|
                0 <= z < y ==> #[trigger] data@[z]@ == dot(
                    a@,
                    b@,
                    z / n as int,
                    z % n as int,
                    n as nat,
                ),
        decreases total - y,
    {
        proof {
            assert(n > 0) by (nonlinear_arith)
                requires y < total, total == n * n;
            lemma_split(y as int, n as int, n as int);
        }
        let i = y / n;
        let j = y % n;
        let mut acc = Complex::zero();
        let mut t: usize = 0;
        while t < n
            invariant
                a.wf(),
                b.wf(),
                n == a.dim,
                n == b.dim,
                matmul_fits(a@, b@),
                i < n,
                j < n,
                t <= n,
                acc@ == dot(a@, b@, i as int, j as int, t as nat),
            decreases n - t,
        {
            let p = a.get(i, t).times(&b.get(t, j));
            proof {
                assert(c_fits(dot(a@, b@, i as int, j as int, (t + 1) as nat)));
            }
            acc = acc.plus(&p);
            t = t + 1;
        }
        data.push(acc);
        y = y + 1;
    }
    let r = Matrix { dim: n, data };
    assert(r@ =~~= matmul(a@, b@)) by {
        assert forall|i: int, j: int| 0 <= i < n && 0 <= j < n implies r@[i][j] == matmul(
            a@,
            b@,
        )[i][j] by {
            lemma_flat(i, j, n as int, n as int);
        }
    }
    r
}

/// The similarity transform `u · x · u†`; refused when the dimensions differ.
pub fn conjugate_by_of(x: &Matrix, u: &Matrix) -> (r: Result<Matrix, OperatorError>)
    requires
        x.wf(),
        u.wf(),
        x.dim == u.dim ==> conj_by_fits(x@, u@),
    ensures
        r is Err <==> x.dim != u.dim,
        r is Err ==> r->Err_0 == OperatorError::Shape,
        r is Ok ==> r->Ok_0.wf() && r->Ok_0.dim == x.dim && r->Ok_0@ == conj_by(x@, u@),
{
    if x.dim != u.dim {
        return Err(OperatorError::Shape);
    }
    let ux = matmul_of(u, x);
    let ud = dagger_of(u);
    Ok(matmul_of(&ux, &ud))
}

/// Types that have a hermitian conjugate (the conjugate transpose, for matrices).
pub trait HasDagger: Sized {
    /// The type of the hermitian conjugate.
    type Output;

    /// What `dag` needs of `self`.
    spec fn dag_requires(&self) -> bool;

    /// What `dag` promises of its result.
    spec fn dag_ensures(&self, r: &Self::Output) -> bool;

    /// The hermitian conjugate, as a new value.
    fn dag(&self) -> (r: Self::Output)
        requires
            self.dag_requires(),
        ensures
            self.dag_ensures(&r),
    ;
}

impl HasDagger for Matrix {
    type Output = Matrix;

    open spec fn dag_requires(&self) -> bool {
        self.wf() && conj_fits(self@)
    }

    open spec fn dag_ensures(&self, r: &Matrix) -> bool {
        r.wf() && r.dim == self.dim && r@ == dagger(self@)
    }

    fn dag(&self) -> (r: Matrix) {
        dagger_of(self)
    }
}

/// Types that can be conjugated by a matrix, as `U X U†`.
pub trait ConjBy: Sized {
    /// What `conjugate_by` needs of `self` and `op`.
    spec fn conjugate_by_requires(&self, op: &Matrix) -> bool;

    /// What `conjugate_by` promises of its result.
    spec fn conjugate_by_ensures(&self, op: &Matrix, r: &Result<Self, OperatorError>) -> bool;

    /// Conjugates this value by `op`, returning a copy.
    fn conjugate_by(&self, op: &Matrix) -> (r: Result<Self, OperatorError>)
        requires
            self.conjugate_by_requires(op),
        ensures
            self.conjugate_by_ensures(op, &r),
    ;
}

impl ConjBy for Matrix {
    open spec fn conjugate_by_requires(&self, op: &Matrix) -> bool {
        self.wf() && op.wf() && (self.dim == op.dim ==> conj_by_fits(self@, op@))
    }

    open spec fn conjugate_by_ensures(&self, op: &Matrix, r: &Result<Matrix, OperatorError>) -> bool {
        &&& (r is Err <==> self.dim != op.dim)
        &&& (r is Err ==> r->Err_0 == OperatorError::Shape)
        &&& (r is Ok ==> r->Ok_0.wf() && r->Ok_0.dim == self.dim && r->Ok_0@ == conj_by(self@, op@))
    }

    fn conjugate_by(&self, op: &Matrix) -> (r: Result<Matrix, OperatorError>) {
        conjugate_by_of(self, op)
    }
}

/// Types whose trace can be computed (the sum of the diagonal entries, for matrices).
pub trait Trace: Sized {
    /// The type of the trace.
    type Output;

    /// What `trace` needs of `self`.
    spec fn trace_requires(&self) -> bool;

    /// What `trace` promises of its result.
    spec fn trace_ensures(&self, r: &Self::Output) -> bool;

    /// The trace.
    fn trace(self) -> (r: Self::Output)
        requires
            self.trace_requires(),
        ensures
            self.trace_ensures(&r),
    ;
}

impl Trace for Matrix {
    type Output = Complex;

    open spec fn trace_requires(&self) -> bool {
        self.wf() && trace_fits(self@)
    }

    open spec fn trace_ensures(&self, r: &Complex) -> bool {
        r@ == trace(self@)
    }

    fn trace(self) -> (r: Complex) {
        trace_of(&self)
    }
}

/// Types that support the matrix exponential.
pub trait Expm: Sized {
    /// The type of the errors that the exponential can end in.
    type Error;

    /// The exponential of this value.
    fn expm(&self) -> Result<Self, Self::Error>;
}

} // verus!
