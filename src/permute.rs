//! Reordering the tensor factors (qubits) of an operator.

use vstd::prelude::*;
use crate::error::OperatorError;
use crate::matrix::{MatVal, Matrix, lemma_flat, lemma_split};
use crate::complex::Complex;

verus! {

/// Bit `p` of `x`, counting from the least significant.
pub open spec fn bit(x: u64, p: u64) -> u64 {
    (x >> p) & 1
}

/// `dim` is `2^n` for some `n`.
pub open spec fn is_pow2(dim: usize) -> bool {
    exists|n: u64| n < 64 && dim as u64 == #[trigger] (1u64 << n)
}

/// `order` is a bijection of `{0, ..., order.len() - 1}`.
pub open spec fn is_perm(order: Seq<usize>) -> bool {
    &&& order.len() < 64
    &&& forall|k: int| 0 <= k < order.len() ==> #[trigger] order[k] < order.len()
    &&& forall|k1: int, k2: int|
        0 <= k1 < order.len() && 0 <= k2 < order.len() && k1 != k2 ==> #[trigger] order[k1]
            != #[trigger] order[k2]
}

/// Over `n` binary axes, axis `k` of an index is its bit `n - 1 - k` (axis 0 is the most
/// significant). The index whose axis `order[k]` holds what axis `k` of `x` holds, for
/// every `k < upto`; the other axes are zero.
pub open spec fn source_index(x: u64, order: Seq<usize>, upto: nat) -> u64
    decreases upto,
{
    if upto == 0 {
        0
    } else {
        let k = upto - 1;
        let n = order.len();
        source_index(x, order, k as nat) | (bit(x, (n - 1 - k) as u64) << ((n - 1
            - order[k]) as u64))
    }
}

/// Where entry `(r, c)` of the permuted operator comes from: the row and the column
/// index are both rearranged by `order`.
pub open spec fn src(x: int, order: Seq<usize>) -> int {
    source_index(x as u64, order, order.len()) as int
}

/// The operator whose tensor factors are rearranged so that new factor `k` is old
/// factor `order[k]`, moving rows and columns together.
pub open spec fn permuted(m: MatVal, order: Seq<usize>) -> MatVal {
    Seq::new(
        m.len(),
        |r: int| Seq::new(m.len(), |c: int| m[src(r, order)][src(c, order)]),
    )
}

proof fn lemma_shift_lt(b: u64, q: u64, n: u64)
    requires
        b <= 1,
        q < n,
        n < 64,
    ensures
        b << q < 1u64 << n,
{
    assert(b <= 1 && q < n && n < 64 ==> b << q < 1u64 << n) by (bit_vector);
}

proof fn lemma_or_lt(a: u64, b: u64, n: u64)
    requires
        a < 1u64 << n,
        b < 1u64 << n,
        n < 64,
    ensures
        a | b < 1u64 << n,
{
    assert(a < 1u64 << n && b < 1u64 << n && n < 64 ==> a | b < 1u64 << n) by (bit_vector);
}

pub proof fn lemma_pow2_mono(a: u64, b: u64)
    requires
        a < b < 64,
    ensures
        (1u64 << a) < (1u64 << b),
{
    assert(a < b < 64 ==> (1u64 << a) < (1u64 << b)) by (bit_vector);
}

/// A source index is an index over the same number of axes.
pub proof fn lemma_source_index_bound(x: u64, order: Seq<usize>, upto: nat)
    requires
        is_perm(order),
        upto <= order.len(),
        order.len() > 0,
    ensures
        source_index(x, order, upto) < 1u64 << (order.len() as u64),
    decreases upto,
{
    let n = order.len() as u64;
    if upto == 0 {
        lemma_pow2_mono(0, n);
        assert(1u64 << 0u64 == 1) by (bit_vector);
    } else {
        let k = upto - 1;
        lemma_source_index_bound(x, order, k as nat);
        let sh = (n - 1 - k) as u64;
        let b = bit(x, sh);
        assert(b <= 1) by (bit_vector)
            requires b == (x >> sh) & 1;
        lemma_shift_lt(b, (n - 1 - order[k as int]) as u64, n);
        lemma_or_lt(
            source_index(x, order, k as nat),
            b << ((n - 1 - order[k as int]) as u64),
            n,
        );
    }
}

/// Rearranges the tensor factors of `m`: new factor `k` is old factor `new_order[k]`,
/// for rows and columns alike. Only entries move.
pub fn permute_mtx(m: &Matrix, new_order: &[usize]) -> (r: Result<Matrix, OperatorError>)
    requires
        m.wf(),
    ensures
        r matches Err(OperatorError::Shape) <==> !is_pow2(m.dim),
        r matches Err(OperatorError::Permutation) <==> is_pow2(m.dim) && !(is_perm(new_order@)
            && m.dim as u64 == 1u64 << (new_order@.len() as u64)),
        !(r matches Err(OperatorError::IndexOutOfRange)),
        r is Ok <==> is_perm(new_order@) && m.dim as u64 == 1u64 << (new_order@.len() as u64),
        r is Ok ==> r->Ok_0.wf() && r->Ok_0.dim == m.dim && r->Ok_0@ == permuted(m@, new_order@),
{
    let dim = m.dim;
    let mlen = m.data.len();
    let dim64 = dim as u64;
    let mut n: u64 = 0;
    while n < 63 && (1u64 << n) < dim64
        invariant
            n <= 63,
            dim64 == dim as u64,
            forall|j: u64| j < n ==> #[trigger] (1u64 << j) < dim64,
        decreases 63 - n,
    {
        n = n + 1;
    }
    if (1u64 << n) != dim64 {
        proof {
            assert forall|j: u64| j < 64 implies dim64 != #[trigger] (1u64 << j) by {
                if j > n {
                    lemma_pow2_mono(n, j);
                    if n == 63 {
                        assert(j == 64 || j < 64);
                    }
                }
            }
        }
        return Err(OperatorError::Shape);
    }
    assert(is_pow2(dim));
    if new_order.len() as u64 != n {
        proof {
            let len = new_order@.len() as u64;
            if is_perm(new_order@) && dim64 == 1u64 << len {
                if len < n {
                    lemma_pow2_mono(len, n);
                } else {
                    lemma_pow2_mono(n, len);
                }
            }
        }
        return Err(OperatorError::Permutation);
    }
    let nq: usize = new_order.len();
    assert(dim64 == 1u64 << (nq as u64));
    let mut k: usize = 0;
    while k < nq
        invariant
            nq == new_order@.len(),
            nq <= 63,
            k <= nq,
            is_pow2(m.dim),
            dim == m.dim,
            dim64 == dim as u64,
            dim64 == 1u64 << (nq as u64),
            forall|a: int| 0 <= a < k ==> #[trigger] new_order@[a] < nq,
            forall|a: int, b: int|
                0 <= a < k && 0 <= b < k && a != b ==> #[trigger] new_order@[a]
                    != #[trigger] new_order@[b],
        decreases nq - k,
    {
        if new_order[k] >= nq {
            return Err(OperatorError::Permutation);
        }
        let mut j: usize = 0;
        while j < k
            invariant
                k < nq,
                j <= k,
                is_pow2(m.dim),
                dim == m.dim,
                dim64 == dim as u64,
                dim64 == 1u64 << (nq as u64),
                nq == new_order@.len(),
                forall|b: int| 0 <= b < j ==> new_order@[b] != new_order@[k as int],
            decreases k - j,
        {
            if new_order[j] == new_order[k] {
                return Err(OperatorError::Permutation);
            }
            j = j + 1;
        }
        k = k + 1;
    }
    assert(is_perm(new_order@));
    let ghost order = new_order@;
    // Where each row (and column) of the result is read from.
    let mut sources: Vec<usize> = Vec::new();
    let mut x: usize = 0;
    while x < dim
        invariant
            is_perm(order),
            order == new_order@,
            nq == order.len(),
            dim64 == dim as u64,
            dim64 == 1u64 << (nq as u64),
            x <= dim,
            sources@.len() == x,
            forall|y: int| 0 <= y < x ==> #[trigger] sources@[y] as int == src(y, order),
            forall|y: int| 0 <= y < x ==> #[trigger] sources@[y] < dim,
        decreases dim - x,
    {
        let x64 = x as u64;
        let mut acc: u64 = 0;
        let mut a: usize = 0;
        while a < nq
            invariant
                is_perm(order),
                order == new_order@,
                nq == order.len(),
                a <= nq,
                acc == source_index(x64, order, a as nat),
            decreases nq - a,
        {
            acc = acc | (((x64 >> ((nq - 1 - a) as u64)) & 1) << ((nq - 1 - new_order[a]) as u64));
            a = a + 1;
        }
        proof {
            if nq > 0 {
                lemma_source_index_bound(x64, order, nq as nat);
            } else {
                assert(1u64 << 0u64 == 1) by (bit_vector);
            }
        }
        sources.push(acc as usize);
        x = x + 1;
    }
    proof {
        let nn = nq as u64;
        assert(nn < 64 ==> 1u64 << nn > 0) by (bit_vector);
    }
    let total = dim * dim;
    let mut data: Vec<Complex> = Vec::new();
    let mut y: usize = 0;
    while y < total
        invariant
            m.wf(),
            mlen == dim * dim,
            dim == m.dim,
            dim > 0,
            total == dim * dim,
            sources@.len() == dim,
            forall|z: int| 0 <= z < dim ==> #[trigger] sources@[z] as int == src(z, order),
            forall|z: int| 0 <= z < dim ==> #[trigger] sources@[z] < dim,
            y <= total,
            data@.len() == y,
            forall|z: int|
                0 <= z < y ==> #[trigger] data@[z]@ == m@[src(z / dim as int, order)][src(
                    z % dim as int,
                    order,
                )],
        decreases total - y,
    {
        proof {
            lemma_split(y as int, dim as int, dim as int);
        }
        let row = sources[y / dim];
        let col = sources[y % dim];
        proof {
            lemma_flat(row as int, col as int, dim as int, dim as int);
        }
        data.push(m.data[row * dim + col]);
        y = y + 1;
    }
    let p = Matrix { dim, data };
    assert(p@ =~~= permuted(m@, order)) by {
        assert forall|i: int, j: int| 0 <= i < dim && 0 <= j < dim implies p@[i][j] == permuted(
            m@,
            order,
        )[i][j] by {
            lemma_flat(i, j, dim as int, dim as int);
        }
    }
    Ok(p)
}

} // verus!
