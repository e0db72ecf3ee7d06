//! Exact complex scalars with integer real and imaginary parts.

use vstd::prelude::*;

verus! {

/// The mathematical value of a complex scalar: (real part, imaginary part).
pub type CVal = (int, int);

pub open spec fn c_zero() -> CVal {
    (0, 0)
}

pub open spec fn c_one() -> CVal {
    (1, 0)
}

pub open spec fn c_add(a: CVal, b: CVal) -> CVal {
    (a.0 + b.0, a.1 + b.1)
}

pub open spec fn c_mul(a: CVal, b: CVal) -> CVal {
    (a.0 * b.0 - a.1 * b.1, a.0 * b.1 + a.1 * b.0)
}

pub open spec fn c_conj(a: CVal) -> CVal {
    (a.0, -a.1)
}

/// Both parts of `a` fit in an `i64`.
pub open spec fn c_fits(a: CVal) -> bool {
    i64::MIN <= a.0 <= i64::MAX && i64::MIN <= a.1 <= i64::MAX
}

/// One is neutral and zero absorbing for the product.
pub proof fn lemma_mul_unit(x: CVal)
    ensures
        c_mul(c_one(), x) == x,
        c_mul(x, c_one()) == x,
        c_mul(c_zero(), x) == c_zero(),
        c_mul(x, c_zero()) == c_zero(),
{
    let (a, b) = x;
    assert(1 * a - 0 * b == a && 1 * b + 0 * a == b) by (nonlinear_arith);
    assert(a * 1 - b * 0 == a && a * 0 + b * 1 == b) by (nonlinear_arith);
    assert(0 * a - 0 * b == 0 && 0 * b + 0 * a == 0) by (nonlinear_arith);
    assert(a * 0 - b * 0 == 0 && a * 0 + b * 0 == 0) by (nonlinear_arith);
}

/// The sum is associative and the product distributes over it.
pub proof fn lemma_ring(x: CVal, y: CVal, z: CVal)
    ensures
        c_add(c_add(x, y), z) == c_add(x, c_add(y, z)),
        c_mul(c_add(x, y), z) == c_add(c_mul(x, z), c_mul(y, z)),
        c_mul(x, c_add(y, z)) == c_add(c_mul(x, y), c_mul(x, z)),
        c_add(x, c_zero()) == x,
{
    let (a, b) = x;
    let (c, d) = y;
    let (e, f) = z;
    assert((a + c) * e - (b + d) * f == (a * e - b * f) + (c * e - d * f)) by (nonlinear_arith);
    assert((a + c) * f + (b + d) * e == (a * f + b * e) + (c * f + d * e)) by (nonlinear_arith);
    assert(a * (c + e) - b * (d + f) == (a * c - b * d) + (a * e - b * f)) by (nonlinear_arith);
    assert(a * (d + f) + b * (c + e) == (a * d + b * c) + (a * f + b * e)) by (nonlinear_arith);
}

/// The product is associative.
pub proof fn lemma_mul_assoc(x: CVal, y: CVal, z: CVal)
    ensures
        c_mul(c_mul(x, y), z) == c_mul(x, c_mul(y, z)),
{
    let (a, b) = x;
    let (c, d) = y;
    let (e, f) = z;
    assert((a * c - b * d) * e == (a * c) * e - (b * d) * e) by (nonlinear_arith);
    assert((a * d + b * c) * f == (a * d) * f + (b * c) * f) by (nonlinear_arith);
    assert((a * c - b * d) * f == (a * c) * f - (b * d) * f) by (nonlinear_arith);
    assert((a * d + b * c) * e == (a * d) * e + (b * c) * e) by (nonlinear_arith);
    assert(a * (c * e - d * f) == a * (c * e) - a * (d * f)) by (nonlinear_arith);
    assert(b * (c * f + d * e) == b * (c * f) + b * (d * e)) by (nonlinear_arith);
    assert(a * (c * f + d * e) == a * (c * f) + a * (d * e)) by (nonlinear_arith);
    assert(b * (c * e - d * f) == b * (c * e) - b * (d * f)) by (nonlinear_arith);
    assert((a * c) * e == a * (c * e)) by (nonlinear_arith);
    assert((b * d) * e == b * (d * e)) by (nonlinear_arith);
    assert((a * d) * f == a * (d * f)) by (nonlinear_arith);
    assert((b * c) * f == b * (c * f)) by (nonlinear_arith);
    assert((a * c) * f == a * (c * f)) by (nonlinear_arith);
    assert((b * d) * f == b * (d * f)) by (nonlinear_arith);
    assert((a * d) * e == a * (d * e)) by (nonlinear_arith);
    assert((b * c) * e == b * (c * e)) by (nonlinear_arith);
}

/// A complex scalar whose parts are machine integers.
#[derive(Clone, Copy, Debug, PartialEq, Eq, Structural)]
pub struct Complex {
    pub re: i64,
    pub im: i64,
}

impl View for Complex {
    type V = CVal;

    open spec fn view(&self) -> CVal {
        (self.re as int, self.im as int)
    }
}

impl Complex {
    pub fn new(re: i64, im: i64) -> (r: Complex)
        ensures
            r.re == re,
            r.im == im,
    {
        Complex { re, im }
    }

    pub fn zero() -> (r: Complex)
        ensures
            r@ == c_zero(),
    {
        Complex { re: 0, im: 0 }
    }

    pub fn one() -> (r: Complex)
        ensures
            r@ == c_one(),
    {
        Complex { re: 1, im: 0 }
    }

    /// The product `self * o`.
    pub fn times(&self, o: &Complex) -> (r: Complex)
        requires
            c_fits(c_mul(self@, o@)),
        ensures
            r@ == c_mul(self@, o@),
    {
        let (a, b, c, d) = (self.re as i128, self.im as i128, o.re as i128, o.im as i128);
        assert(-0x4000_0000_0000_0000_0000_0000_0000_0000 <= a * c <= 0x4000_0000_0000_0000_0000_0000_0000_0000) by (nonlinear_arith)
            requires
                -0x8000_0000_0000_0000 <= a <= 0x7fff_ffff_ffff_ffff,
                -0x8000_0000_0000_0000 <= c <= 0x7fff_ffff_ffff_ffff,
        ;
        assert(-0x4000_0000_0000_0000_0000_0000_0000_0000 <= b * d <= 0x4000_0000_0000_0000_0000_0000_0000_0000) by (nonlinear_arith)
            requires
                -0x8000_0000_0000_0000 <= b <= 0x7fff_ffff_ffff_ffff,
                -0x8000_0000_0000_0000 <= d <= 0x7fff_ffff_ffff_ffff,
        ;
        assert(-0x4000_0000_0000_0000_0000_0000_0000_0000 <= a * d <= 0x4000_0000_0000_0000_0000_0000_0000_0000) by (nonlinear_arith)
            requires
                -0x8000_0000_0000_0000 <= a <= 0x7fff_ffff_ffff_ffff,
                -0x8000_0000_0000_0000 <= d <= 0x7fff_ffff_ffff_ffff,
        ;
        assert(-0x4000_0000_0000_0000_0000_0000_0000_0000 <= b * c <= 0x4000_0000_0000_0000_0000_0000_0000_0000) by (nonlinear_arith)
            requires
                -0x8000_0000_0000_0000 <= b <= 0x7fff_ffff_ffff_ffff,
                -0x8000_0000_0000_0000 <= c <= 0x7fff_ffff_ffff_ffff,
        ;
        let re = a * c - b * d;
        let im = a * d + b * c;
        Complex { re: re as i64, im: im as i64 }
    }

    /// The sum `self + o`.
    pub fn plus(&self, o: &Complex) -> (r: Complex)
        requires
            c_fits(c_add(self@, o@)),
        ensures
            r@ == c_add(self@, o@),
    {
        Complex { re: self.re + o.re, im: self.im + o.im }
    }

    /// The complex conjugate.
    pub fn conj(&self) -> (r: Complex)
        requires
            c_fits(c_conj(self@)),
        ensures
            r@ == c_conj(self@),
    {
        Complex { re: self.re, im: -self.im }
    }
}

} // verus!
