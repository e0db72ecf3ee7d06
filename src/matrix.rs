//! Square matrices of complex scalars, stored row-major, and the tensor product.

use vstd::prelude::*;
use vstd::arithmetic::div_mod::{lemma_fundamental_div_mod, lemma_fundamental_div_mod_converse};
use crate::complex::{CVal, Complex, c_fits, c_mul, c_one, c_zero};

verus! {

/// The mathematical value of a matrix: its rows.
pub type MatVal = Seq<Seq<CVal>>;

/// Every row has as many entries as there are rows.
pub open spec fn is_square(m: MatVal) -> bool {
    forall|i: int| 0 <= i < m.len() ==> #[trigger] m[i].len() == m.len()
}

/// The identity of dimension `n`.
pub open spec fn eye(n: nat) -> MatVal {
    Seq::new(n, |i: int| Seq::new(n, |j: int| if i == j { c_one() } else { c_zero() }))
}

/// The Kronecker product; an operand of dimension zero leaves the other one unchanged.
pub open spec fn kron(a: MatVal, b: MatVal) -> MatVal {
    if a.len() == 0 {
        b
    } else if b.len() == 0 {
        a
    } else {
        let bd = b.len() as int;
        let d = a.len() * b.len();
        Seq::new(
            d,
            |r: int| Seq::new(d, |c: int| c_mul(a[r / bd][c / bd], b[r % bd][c % bd])),
        )
    }
}

/// Every product that the Kronecker product of `a` and `b` forms fits in machine integers.
pub open spec fn kron_fits(a: MatVal, b: MatVal) -> bool {
    forall|i: int, j: int, k: int, l: int|
        0 <= i < a.len() && 0 <= j < a.len() && 0 <= k < b.len() && 0 <= l < b.len()
            ==> c_fits(#[trigger] c_mul(a[i][j], b[k][l]))
}

/// A square matrix of complex scalars: `data[i * dim + j]` is the entry in row `i`, column `j`.
#[derive(Debug)]
pub struct Matrix {
    pub dim: usize,
    pub data: Vec<Complex>,
}

impl View for Matrix {
    type V = MatVal;

    open spec fn view(&self) -> MatVal {
        Seq::new(
            self.dim as nat,
            |i: int| Seq::new(self.dim as nat, |j: int| self.data@[i * self.dim + j]@),
        )
    }
}

/// `x` splits into a quotient below `q` and a remainder below `d`.
pub proof fn lemma_split(x: int, q: int, d: int)
    requires
        0 <= x < q * d,
        d > 0,
    ensures
        0 <= x / d < q,
        0 <= x % d < d,
        x == (x / d) * d + x % d,
{
    lemma_fundamental_div_mod(x, d);
    let (qq, rr) = (x / d, x % d);
    assert(x == qq * d + rr) by (nonlinear_arith)
        requires x == d * qq + rr;
    assert(0 <= rr < d);
    assert(qq >= 0) by (nonlinear_arith)
        requires x == qq * d + rr, 0 <= rr < d, x >= 0, d > 0;
    assert(qq < q) by (nonlinear_arith)
        requires x == qq * d + rr, 0 <= rr, x < q * d, d > 0;
}

/// Row-major flattening of `(r, c)` in a `q`-by-`d` grid is in range and undone by `/` and `%`.
pub proof fn lemma_flat(r: int, c: int, q: int, d: int)
    requires
        0 <= r < q,
        0 <= c < d,
    ensures
        0 <= r * d + c < q * d,
        (r * d + c) / d == r,
        (r * d + c) % d == c,
{
    assert(0 <= r * d + c < q * d) by (nonlinear_arith)
        requires 0 <= r < q, 0 <= c < d;
    lemma_fundamental_div_mod_converse(r * d + c, d, r, c);
}

impl Matrix {
    /// The flat data has exactly `dim * dim` entries.
    pub open spec fn wf(&self) -> bool {
        self.data@.len() == self.dim * self.dim
    }

    /// The entry in row `i`, column `j`.
    pub fn get(&self, i: usize, j: usize) -> (r: Complex)
        requires
            self.wf(),
            i < self.dim,
            j < self.dim,
        ensures
            r@ == self@[i as int][j as int],
    {
        // The length bounds `dim * dim` by `usize::MAX`.
        let _len = self.data.len();
        proof {
            lemma_flat(i as int, j as int, self.dim as int, self.dim as int);
        }
        self.data[i * self.dim + j]
    }

    /// An entry-for-entry copy.
    pub fn duplicate(&self) -> (r: Matrix)
        ensures
            r.dim == self.dim,
            r.data@ == self.data@,
    {
        let mut data: Vec<Complex> = Vec::new();
        let mut x: usize = 0;
        while x < self.data.len()
            invariant
                x <= self.data@.len(),
                data@ == self.data@.subrange(0, x as int),
            decreases self.data@.len() - x,
        {
            data.push(self.data[x]);
            x = x + 1;
        }
        assert(data@ =~= self.data@);
        Matrix { dim: self.dim, data }
    }

    /// The identity matrix of dimension `dim`.
    pub fn eye(dim: usize) -> (r: Matrix)
        requires
            dim * dim <= usize::MAX,
        ensures
            r.wf(),
            r.dim == dim,
            r@ == eye(dim as nat),
    {
        let total = dim * dim;
        let mut data: Vec<Complex> = Vec::new();
        let mut x: usize = 0;
        while x < total
            invariant
                total == dim * dim,
                x <= total,
                data@.len() == x,
                forall|y: int|
                    0 <= y < x ==> #[trigger] data@[y]@ == (if y / dim as int == y % dim as int {
                        c_one()
                    } else {
                        c_zero()
                    }),
            decreases total - x,
        {
            proof {
                lemma_split(x as int, dim as int, dim as int);
            }
            if x / dim == x % dim {
                data.push(Complex::one());
            } else {
                data.push(Complex::zero());
            }
            x = x + 1;
        }
        let r = Matrix { dim, data };
        assert(r@ =~~= eye(dim as nat)) by {
            assert forall|i: int, j: int| 0 <= i < dim && 0 <= j < dim implies
                r@[i][j] == eye(dim as nat)[i][j] by {
                lemma_flat(i, j, dim as int, dim as int);
            }
        }
        r
    }
}

/// The Kronecker (tensor) product `a ⊗ b`: entry `(i * bd + k, j * bd + l)` is
/// `a[i][j] * b[k][l]`, where `bd` is the dimension of `b`.
pub fn tensor(a: &Matrix, b: &Matrix) -> (r: Matrix)
    requires
        a.wf(),
        b.wf(),
        (a.dim * b.dim) * (a.dim * b.dim) <= usize::MAX,
        kron_fits(a@, b@),
    ensures
        r.wf(),
        r.dim as int == if a.dim == 0 {
            b.dim as int
        } else if b.dim == 0 {
            a.dim as int
        } else {
            a.dim * b.dim
        },
        r@ == kron(a@, b@),
{
    if a.dim == 0 {
        return b.duplicate();
    }
    if b.dim == 0 {
        return a.duplicate();
    }
    let ad = a.dim;
    let bd = b.dim;
    let alen = a.data.len();
    let blen = b.data.len();
    assert(ad * bd <= (ad * bd) * (ad * bd)) by (nonlinear_arith)
        requires ad > 0, bd > 0;
    let d = ad * bd;
    let total = d * d;
    let mut data: Vec<Complex> = Vec::new();
    let mut x: usize = 0;
    while x < total
        invariant
            a.wf(),
            b.wf(),
            ad == a.dim,
            bd == b.dim,
            alen == ad * ad,
            blen == bd * bd,
            ad > 0,
            bd > 0,
            d == ad * bd,
            total == d * d,
            kron_fits(a@, b@),
            x <= total,
            data@.len() == x,
            forall|y: int|
                0 <= y < x ==> #[trigger] data@[y]@ == kron(a@, b@)[y / d as int][y % d as int],
        decreases total - x,
    {
        proof {
            lemma_split(x as int, d as int, d as int);
        }
        let row = x / d;
        let col = x % d;
        proof {
            lemma_split(row as int, ad as int, bd as int);
            lemma_split(col as int, ad as int, bd as int);
        }
        let i = row / bd;
        let k = row % bd;
        let j = col / bd;
        let l = col % bd;
        proof {
            lemma_flat(i as int, j as int, ad as int, ad as int);
            lemma_flat(k as int, l as int, bd as int, bd as int);
            assert(c_fits(c_mul(a@[i as int][j as int], b@[k as int][l as int])));
        }
        let e = a.data[i * ad + j].times(&b.data[k * bd + l]);
        data.push(e);
        x = x + 1;
    }
    let r = Matrix { dim: d, data };
    assert(r@ =~~= kron(a@, b@)) by {
        assert forall|i: int, j: int| 0 <= i < d && 0 <= j < d implies r@[i][j] == kron(
            a@,
            b@,
        )[i][j] by {
            lemma_flat(i, j, d as int, d as int);
        }
    }
    r
}

/// The zero matrix of dimension `n`.
pub open spec fn zeros(n: nat) -> MatVal {
    Seq::new(n, |i: int| Seq::new(n, |j: int| c_zero()))
}

/// A matrix of the same dimension as `m`, with every entry zero.
pub fn zeros_like(m: &Matrix) -> (r: Matrix)
    requires
        m.wf(),
    ensures
        r.wf(),
        r.dim == m.dim,
        r@ == zeros(m.dim as nat),
{
    let total = m.data.len();
    let mut data: Vec<Complex> = Vec::new();
    let mut x: usize = 0;
    while x < total
        invariant
            total == m.dim * m.dim,
            x <= total,
            data@.len() == x,
            forall|y: int| 0 <= y < x ==> #[trigger] data@[y]@ == c_zero(),
        decreases total - x,
    {
        data.push(Complex::zero());
        x = x + 1;
    }
    let r = Matrix { dim: m.dim, data };
    assert(r@ =~~= zeros(m.dim as nat)) by {
        assert forall|i: int, j: int| 0 <= i < m.dim && 0 <= j < m.dim implies r@[i][j] == c_zero() by {
            lemma_flat(i, j, m.dim as int, m.dim as int);
        }
    }
    r
}

} // verus!
