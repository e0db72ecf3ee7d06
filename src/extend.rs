//! Lifting one- and two-qubit operators to operators on a whole register.

use vstd::prelude::*;
use vstd::arithmetic::power2::{pow2, lemma_pow2_adds, lemma_pow2_strictly_increases, lemma_pow2_unfold, lemma_pow2_pos, lemma2_to64};
use vstd::arithmetic::div_mod::lemma_fundamental_div_mod_converse;
use crate::complex::{lemma_mul_unit, c_fits, c_mul, c_one};
use crate::error::OperatorError;
use crate::matrix::{MatVal, Matrix, eye, is_square, kron, kron_fits, tensor};
use crate::permute::{is_perm, is_pow2, permute_mtx, permuted};

verus! {

/// `I(2^idx) ⊗ op ⊗ I(2^(n - idx - 1))`: `op` acting on qubit `idx` of `n`.
pub open spec fn embed_one(op: MatVal, idx: nat, n: nat) -> MatVal {
    kron(eye(pow2(idx)), kron(op, eye(pow2((n - idx - 1) as nat))))
}

/// `s` with the entries at `a` and `b` exchanged.
pub open spec fn seq_swap(s: Seq<usize>, a: int, b: int) -> Seq<usize> {
    s.update(a, s[b]).update(b, s[a])
}

/// The factor order that moves the pair held on positions 0 and 1 to `idx1` and `idx2`.
pub open spec fn pair_order(idx1: nat, idx2: nat, n: nat) -> Seq<usize> {
    let id = Seq::new(n, |k: int| k as usize);
    if idx1 == 1 && idx2 == 0 {
        seq_swap(id, 0, 1)
    } else if idx2 == 0 {
        seq_swap(seq_swap(id, 1, idx2 as int), 1, idx1 as int)
    } else {
        seq_swap(seq_swap(id, 1, idx2 as int), 0, idx1 as int)
    }
}

/// `op` acting on qubits `idx1` and `idx2` of `n`: placed on the first two positions
/// next to `I(2^(n - 2))`, then moved by `pair_order`.
pub open spec fn embed_two(op: MatVal, idx1: nat, idx2: nat, n: nat) -> MatVal {
    permuted(kron(op, eye(pow2((n - 2) as nat))), pair_order(idx1, idx2, n))
}

/// `2^n`, computed.
fn pow2_usize(n: usize) -> (r: usize)
    requires
        pow2(n as nat) <= usize::MAX,
    ensures
        r == pow2(n as nat),
{
    let mut r: usize = 1;
    let mut i: usize = 0;
    proof {
        lemma2_to64();
    }
    while i < n
        invariant
            i <= n,
            r == pow2(i as nat),
            pow2(n as nat) <= usize::MAX,
        decreases n - i,
    {
        proof {
            lemma_pow2_unfold((i + 1) as nat);
            if i + 1 < n {
                lemma_pow2_strictly_increases((i + 1) as nat, n as nat);
            }
        }
        r = r * 2;
        i = i + 1;
    }
    r
}

/// `2^n` as a shift.
pub proof fn lemma_pow2_shift(n: u64)
    requires
        n < 64,
    ensures
        pow2(n as nat) == (1u64 << n) as nat,
    decreases n,
{
    if n == 0 {
        lemma2_to64();
        assert(1u64 << 0u64 == 1) by (bit_vector);
    } else {
        lemma_pow2_shift((n - 1) as u64);
        lemma_pow2_unfold(n as nat);
        let m = (n - 1) as u64;
        assert(m < 63 ==> (1u64 << (m + 1) as u64) == 2 * (1u64 << m)) by (bit_vector);
    }
}

/// Every entry of a matrix fits in machine integers.
pub proof fn lemma_view_fits(m: &Matrix, i: int, j: int)
    requires
        0 <= i < m.dim,
        0 <= j < m.dim,
    ensures
        c_fits(m@[i][j]),
{
}

/// Products with the entries of an identity never leave machine range.
pub proof fn lemma_eye_fits(n: nat, m: &Matrix)
    ensures
        kron_fits(eye(n), m@),
        kron_fits(m@, eye(n)),
{
    assert forall|i: int, j: int, k: int, l: int|
        0 <= i < n && 0 <= j < n && 0 <= k < m@.len() && 0 <= l < m@.len() implies c_fits(
        #[trigger] c_mul(eye(n)[i][j], m@[k][l]),
    ) by {
        lemma_view_fits(m, k, l);
    }
    assert forall|i: int, j: int, k: int, l: int|
        0 <= i < m@.len() && 0 <= j < m@.len() && 0 <= k < n && 0 <= l < n implies c_fits(
        #[trigger] c_mul(m@[i][j], eye(n)[k][l]),
    ) by {
        lemma_view_fits(m, i, j);
    }
}

/// The identity of dimension one is neutral on the left of a tensor product.
#[verifier::spinoff_prover]
pub proof fn lemma_kron_eye_one_left(m: MatVal)
    requires
        is_square(m),
        m.len() > 0,
    ensures
        kron(eye(1), m) == m,
{
    let n = m.len() as int;
    let k = kron(eye(1), m);
    assert(eye(1).len() == 1);
    assert(1 * n == n);
    assert(k.len() == n);
    assert forall|r: int| 0 <= r < n implies #[trigger] k[r] =~= m[r] by {
        assert forall|c: int| 0 <= c < n implies k[r][c] == m[r][c] by {
            lemma_fundamental_div_mod_converse(r, n, 0, r);
            lemma_fundamental_div_mod_converse(c, n, 0, c);
            assert(eye(1)[0][0] == c_one());
            lemma_mul_unit(m[r][c]);
        }
    }
    assert(k =~= m);
}

/// The identity of dimension one is neutral on the right of a tensor product.
#[verifier::spinoff_prover]
pub proof fn lemma_kron_eye_one_right(m: MatVal)
    requires
        is_square(m),
        m.len() > 0,
    ensures
        kron(m, eye(1)) == m,
{
    let n = m.len() as int;
    let k = kron(m, eye(1));
    assert(eye(1).len() == 1);
    assert(n * 1 == n);
    assert(k.len() == n);
    assert forall|r: int| 0 <= r < n implies #[trigger] k[r] =~= m[r] by {
        assert forall|c: int| 0 <= c < n implies k[r][c] == m[r][c] by {
            assert(r / 1 == r && c / 1 == c && r % 1 == 0 && c % 1 == 0);
            assert(eye(1)[0][0] == c_one());
            lemma_mul_unit(m[r][c]);
        }
    }
    assert(k =~= m);
}

proof fn lemma_view_square(m: &Matrix)
    ensures
        is_square(m@),
        m@.len() == m.dim,
{
}

/// Lifts the one-qubit operator `data` to act on qubit `idx_qubit` of a register of
/// `n_qubits` qubits, with the identity on every other qubit.
pub fn extend_one_to_n(data: &Matrix, idx_qubit: usize, n_qubits: usize) -> (r: Result<
    Matrix,
    OperatorError,
>)
    requires
        data.wf(),
        idx_qubit < n_qubits ==> pow2(n_qubits as nat) * pow2(n_qubits as nat) <= usize::MAX,
    ensures
        r is Ok <==> idx_qubit < n_qubits && data.dim == 2,
        r matches Err(OperatorError::IndexOutOfRange) <==> idx_qubit >= n_qubits,
        r matches Err(OperatorError::Shape) <==> idx_qubit < n_qubits && data.dim != 2,
        r is Ok ==> r->Ok_0.wf() && r->Ok_0.dim == pow2(n_qubits as nat) && r->Ok_0@
            == embed_one(data@, idx_qubit as nat, n_qubits as nat),
{
    if idx_qubit >= n_qubits {
        return Err(OperatorError::IndexOutOfRange);
    }
    if data.dim != 2 {
        return Err(OperatorError::Shape);
    }
    let n_left = idx_qubit;
    let n_right = n_qubits - idx_qubit - 1;
    proof {
        lemma_pow2_adds(n_left as nat, (n_right + 1) as nat);
        lemma_pow2_adds(1, n_right as nat);
        lemma2_to64();
        assert(n_left as nat + (n_right + 1) as nat == n_qubits as nat);
        assert(1 as nat + n_right as nat == (n_right + 1) as nat);
        lemma_pow2_pos(n_left as nat);
        lemma_pow2_pos(n_right as nat);
        let (l, rr) = (pow2(n_left as nat), pow2(n_right as nat));
        assert(l * l <= usize::MAX && rr * rr <= usize::MAX && (2 * rr) * (2 * rr) <= usize::MAX
            && l <= usize::MAX && rr <= usize::MAX)
            by (nonlinear_arith)
            requires
                l * (2 * rr) * (l * (2 * rr)) <= usize::MAX,
                l >= 1,
                rr >= 1,
        ;
        lemma_view_square(data);
    }
    let dl = pow2_usize(n_left);
    let dr = pow2_usize(n_right);
    if n_left == 0 {
        let right_eye = Matrix::eye(dr);
        proof {
            lemma_eye_fits(dr as nat, data);
            lemma_kron_eye_one_left(kron(data@, eye(dr as nat)));
        }
        Ok(tensor(data, &right_eye))
    } else if n_right == 0 {
        let left_eye = Matrix::eye(dl);
        proof {
            lemma_eye_fits(dl as nat, data);
            lemma_kron_eye_one_right(data@);
        }
        Ok(tensor(&left_eye, data))
    } else {
        let right_eye = Matrix::eye(dr);
        proof {
            lemma_eye_fits(dr as nat, data);
        }
        let right = tensor(data, &right_eye);
        let left_eye = Matrix::eye(dl);
        proof {
            lemma_eye_fits(dl as nat, &right);
        }
        Ok(tensor(&left_eye, &right))
    }
}

/// Exchanging two entries keeps a bijection a bijection.
pub proof fn lemma_swap_perm(s: Seq<usize>, a: int, b: int)
    requires
        is_perm(s),
        0 <= a < s.len(),
        0 <= b < s.len(),
    ensures
        is_perm(seq_swap(s, a, b)),
        seq_swap(s, a, b).len() == s.len(),
{
    let t = seq_swap(s, a, b);
    assert forall|k1: int, k2: int|
        0 <= k1 < t.len() && 0 <= k2 < t.len() && k1 != k2 implies #[trigger] t[k1]
        != #[trigger] t[k2] by {
        let m1 = if k1 == a { b } else if k1 == b { a } else { k1 };
        let m2 = if k2 == a { b } else if k2 == b { a } else { k2 };
        assert(t[k1] == s[m1] && t[k2] == s[m2]);
    }
}

/// The factor order used by `extend_two_to_n` is a bijection.
pub proof fn lemma_pair_order_perm(idx1: nat, idx2: nat, n: nat)
    requires
        idx1 < n,
        idx2 < n,
        idx1 != idx2,
        n < 64,
    ensures
        is_perm(pair_order(idx1, idx2, n)),
        pair_order(idx1, idx2, n).len() == n,
{
    let id = Seq::new(n, |k: int| k as usize);
    assert(is_perm(id));
    assert(n >= 2);
    lemma_swap_perm(id, 1, idx2 as int);
    lemma_swap_perm(id, 0, 1);
    let s1 = seq_swap(id, 1, idx2 as int);
    lemma_swap_perm(s1, 1, idx1 as int);
    lemma_swap_perm(s1, 0, idx1 as int);
}

/// `2^n` exceeds every machine word once `n` reaches 64.
proof fn lemma_pow2_small(n: nat)
    requires
        pow2(n) <= usize::MAX,
    ensures
        n < 64,
{
    lemma2_to64();
    if n > 64 {
        lemma_pow2_strictly_increases(64, n);
    }
}

/// Lifts the two-qubit operator `data` to act on qubits `idx_qubit1` (its first factor)
/// and `idx_qubit2` (its second factor) of a register of `n_qubits` qubits, with the
/// identity on every other qubit.
pub fn extend_two_to_n(data: &Matrix, idx_qubit1: usize, idx_qubit2: usize, n_qubits: usize) -> (r:
    Result<Matrix, OperatorError>)
    requires
        data.wf(),
        idx_qubit1 < n_qubits && idx_qubit2 < n_qubits ==> pow2(n_qubits as nat) * pow2(
            n_qubits as nat,
        ) <= usize::MAX,
    ensures
        r is Ok <==> idx_qubit1 < n_qubits && idx_qubit2 < n_qubits && data.dim == 4
            && idx_qubit1 != idx_qubit2,
        r matches Err(OperatorError::IndexOutOfRange) <==> idx_qubit1 >= n_qubits || idx_qubit2
            >= n_qubits,
        r matches Err(OperatorError::Shape) <==> idx_qubit1 < n_qubits && idx_qubit2 < n_qubits
            && data.dim != 4,
        r matches Err(OperatorError::Permutation) <==> idx_qubit1 < n_qubits && idx_qubit2
            < n_qubits && data.dim == 4 && idx_qubit1 == idx_qubit2,
        r is Ok ==> r->Ok_0.wf() && r->Ok_0.dim == pow2(n_qubits as nat) && r->Ok_0@
            == embed_two(data@, idx_qubit1 as nat, idx_qubit2 as nat, n_qubits as nat),
{
    if idx_qubit1 >= n_qubits || idx_qubit2 >= n_qubits {
        return Err(OperatorError::IndexOutOfRange);
    }
    if data.dim != 4 {
        return Err(OperatorError::Shape);
    }
    if idx_qubit1 == idx_qubit2 {
        return Err(OperatorError::Permutation);
    }
    let n = n_qubits;
    let ghost order = pair_order(idx_qubit1 as nat, idx_qubit2 as nat, n as nat);
    proof {
        lemma_pow2_pos(n as nat);
        let p = pow2(n as nat);
        assert(p <= p * p) by (nonlinear_arith)
            requires p >= 1;
        lemma_pow2_small(n as nat);
        lemma_pair_order_perm(idx_qubit1 as nat, idx_qubit2 as nat, n as nat);
    }
    let mut permutation: Vec<usize> = Vec::new();
    let mut k: usize = 0;
    while k < n
        invariant
            k <= n,
            permutation@ == Seq::new(k as nat, |j: int| j as usize),
        decreases n - k,
    {
        permutation.push(k);
        k = k + 1;
        assert(permutation@ =~= Seq::new(k as nat, |j: int| j as usize));
    }
    if idx_qubit1 == 1 && idx_qubit2 == 0 {
        let t = permutation[0];
        permutation.set(0, permutation[1]);
        permutation.set(1, t);
    } else if idx_qubit2 == 0 {
        let t = permutation[1];
        permutation.set(1, permutation[idx_qubit2]);
        permutation.set(idx_qubit2, t);
        let t = permutation[1];
        permutation.set(1, permutation[idx_qubit1]);
        permutation.set(idx_qubit1, t);
    } else {
        let t = permutation[1];
        permutation.set(1, permutation[idx_qubit2]);
        permutation.set(idx_qubit2, t);
        let t = permutation[0];
        permutation.set(0, permutation[idx_qubit1]);
        permutation.set(idx_qubit1, t);
    }
    assert(permutation@ =~= order);
    proof {
        lemma_pow2_shift(n as u64);
        lemma_view_square(data);
        lemma_pow2_adds(2, (n - 2) as nat);
        lemma2_to64();
        assert(2 + (n - 2) as nat == n as nat);
        assert(is_pow2(pow2(n as nat) as usize));
    }
    if n == 2 {
        let base = data.duplicate();
        proof {
            assert(base@ =~~= data@);
            lemma_kron_eye_one_right(data@);
        }
        permute_mtx(&base, permutation.as_slice())
    } else {
        proof {
            lemma_pow2_pos((n - 2) as nat);
            let q = pow2((n - 2) as nat);
            assert(q * q <= usize::MAX) by (nonlinear_arith)
                requires (4 * q) * (4 * q) <= usize::MAX, q >= 1;
        }
        let eye = Matrix::eye(pow2_usize(n - 2));
        proof {
            lemma_eye_fits(pow2((n - 2) as nat), data);
        }
        let base = tensor(data, &eye);
        permute_mtx(&base, permutation.as_slice())
    }
}

} // verus!
