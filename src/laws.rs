//! Algebraic laws of the operator algebra.

use vstd::prelude::*;
use vstd::arithmetic::power2::{pow2, lemma_pow2_adds, lemma_pow2_pos, lemma2_to64};
use crate::complex::c_one;
use crate::complex::{c_add, c_conj, c_mul, c_zero, lemma_mul_assoc, lemma_mul_unit, lemma_ring};
use crate::extend::{embed_one, embed_two, pair_order, lemma_pair_order_perm, lemma_pow2_shift, lemma_kron_eye_one_left, lemma_kron_eye_one_right};
use crate::functions::{dagger, diag_sum, trace};
use crate::matrix::{MatVal, eye, is_square, kron, lemma_flat, lemma_split};
use vstd::arithmetic::div_mod::lemma_fundamental_div_mod_converse;
use crate::permute::{bit, is_perm, lemma_source_index_bound, permuted, source_index, src};

verus! {

/// The tensor product of operators on `ea` and `eb` qubits acts on `ea + eb` qubits,
/// and its first entry is the product of the operands' first entries.
pub proof fn law_tensor_dim(a: MatVal, b: MatVal, ea: nat, eb: nat)
    requires
        is_square(a),
        is_square(b),
        a.len() == pow2(ea),
        b.len() == pow2(eb),
    ensures
        kron(a, b).len() == pow2(ea + eb),
        is_square(kron(a, b)),
        kron(a, b)[0][0] == c_mul(a[0][0], b[0][0]),
{
    lemma_pow2_pos(ea);
    lemma_pow2_pos(eb);
    lemma_pow2_adds(ea, eb);
    let bd = b.len() as int;
    assert(0int / bd == 0 && 0int % bd == 0) by {
        lemma_flat(0, 0, 1, bd);
    }
    assert(a.len() * b.len() > 0) by (nonlinear_arith)
        requires a.len() > 0, b.len() > 0;
}

/// Taking the conjugate transpose twice gives the operator back.
pub proof fn law_dagger_involution(m: MatVal)
    requires
        is_square(m),
    ensures
        dagger(dagger(m)) == m,
{
    assert(dagger(dagger(m)) =~~= m) by {
        assert forall|i: int| 0 <= i < m.len() implies #[trigger] dagger(dagger(m))[i] =~= m[i] by {
            assert forall|j: int| 0 <= j < m.len() implies dagger(dagger(m))[i][j] == m[i][j] by {
                let x = m[i][j];
                assert(c_conj(c_conj(x)) == x);
            }
        }
    }
}

/// Extending an operator to qubit 0 of a one-qubit register leaves it unchanged.
pub proof fn law_extend_single_whole(op: MatVal)
    requires
        is_square(op),
        op.len() == 2,
    ensures
        embed_one(op, 0, 1) == op,
{
    lemma2_to64();
    lemma_kron_eye_one_right(op);
    lemma_kron_eye_one_left(op);
}

/// Placing a two-qubit operator on qubits 1 and 0 of a two-qubit register exchanges
/// its two tensor factors.
pub proof fn law_extend_pair_swapped(op: MatVal)
    requires
        is_square(op),
        op.len() == 4,
    ensures
        embed_two(op, 1, 0, 2) == permuted(op, seq![1usize, 0usize]),
{
    lemma2_to64();
    lemma_kron_eye_one_right(op);
    let id = Seq::new(2, |k: int| k as usize);
    assert(id.update(0, id[1]).update(1, id[0]) =~= seq![1usize, 0usize]);
}

/// The diagonal of `a ⊗ b` summed up to block `i`, entry `k`.
proof fn lemma_trace_blocks(a: MatVal, b: MatVal, i: nat, k: nat)
    requires
        is_square(a),
        is_square(b),
        a.len() > 0,
        b.len() > 0,
        i < a.len(),
        k <= b.len(),
    ensures
        diag_sum(kron(a, b), i * b.len() + k) == c_add(
            c_mul(diag_sum(a, i), trace(b)),
            c_mul(a[i as int][i as int], diag_sum(b, k)),
        ),
    decreases i, k,
{
    let bd = b.len();
    let kk = kron(a, b);
    if k == 0 {
        lemma_mul_unit(a[i as int][i as int]);
        lemma_ring(c_mul(diag_sum(a, i), trace(b)), c_zero(), c_zero());
        if i == 0 {
            lemma_mul_unit(trace(b));
            assert(0 * bd == 0);
        } else {
            let j = (i - 1) as nat;
            lemma_trace_blocks(a, b, j, bd);
            assert(j * bd + bd == i * bd) by (nonlinear_arith)
                requires j == i - 1;
            lemma_ring(diag_sum(a, j), a[j as int][j as int], trace(b));
        }
    } else {
        let t = (k - 1) as nat;
        lemma_trace_blocks(a, b, i, t);
        let r = i * bd + t;
        lemma_flat(i as int, t as int, a.len() as int, bd as int);
        assert(r + 1 == i * bd + k);
        assert(kk[r as int][r as int] == c_mul(a[i as int][i as int], b[t as int][t as int]));
        lemma_ring(
            c_mul(diag_sum(a, i), trace(b)),
            c_mul(a[i as int][i as int], diag_sum(b, t)),
            c_mul(a[i as int][i as int], b[t as int][t as int]),
        );
        lemma_ring(a[i as int][i as int], diag_sum(b, t), b[t as int][t as int]);
    }
}

/// The trace of a tensor product is the product of the traces.
pub proof fn law_trace_tensor(a: MatVal, b: MatVal)
    requires
        is_square(a),
        is_square(b),
        a.len() > 0,
        b.len() > 0,
    ensures
        trace(kron(a, b)) == c_mul(trace(a), trace(b)),
{
    let bd = b.len();
    let j = (a.len() - 1) as nat;
    lemma_trace_blocks(a, b, j, bd);
    assert(j * bd + bd == a.len() * bd) by (nonlinear_arith)
        requires j == a.len() - 1;
    lemma_ring(diag_sum(a, j), a[j as int][j as int], trace(b));
}

/// Setting bit `q` to `b` touches no other bit.
proof fn lemma_bit_or_shift(a: u64, b: u64, p: u64, q: u64)
    requires
        b <= 1,
        p < 64,
        q < 64,
    ensures
        bit(a | (b << q), p) == if p == q {
            bit(a, p) | b
        } else {
            bit(a, p)
        },
{
    assert(b <= 1 && p < 64 && q < 64 ==> ((a | (b << q)) >> p) & 1 == if p == q {
        ((a >> p) & 1) | b
    } else {
        (a >> p) & 1
    }) by (bit_vector);
}

/// What a source index is, bit by bit: over `n = order.len()` axes, bit
/// `n - 1 - order[k]` of `source_index(x, order, upto)` is bit `n - 1 - k` of `x` for every
/// axis `k < upto`, and zero for the axes not placed yet. With `upto == n` and
/// `lemma_source_index_bound`, this says that axis `order[k]` of the source carries axis `k`
/// of `x`, and that no bit at or above `n` is set.
pub proof fn lemma_source_bits(x: u64, order: Seq<usize>, upto: nat, k: int)
    requires
        is_perm(order),
        upto <= order.len(),
        0 <= k < order.len(),
    ensures
        bit(source_index(x, order, upto), (order.len() - 1 - order[k]) as u64) == if k < upto {
            bit(x, (order.len() - 1 - k) as u64)
        } else {
            0
        },
    decreases upto,
{
    let n = order.len();
    let p = (n - 1 - order[k]) as u64;
    if upto == 0 {
        assert(bit(0, p) == 0) by (bit_vector);
    } else {
        let u = upto - 1;
        lemma_source_bits(x, order, u as nat, k);
        let sh = (n - 1 - u) as u64;
        let b = bit(x, sh);
        assert(b <= 1) by (bit_vector)
            requires b == (x >> sh) & 1;
        let q = (n - 1 - order[u]) as u64;
        lemma_bit_or_shift(source_index(x, order, u as nat), b, p, q);
        if k == u {
            assert(0u64 | b == b) by (bit_vector);
        } else {
            assert(order[k] != order[u as int]);
        }
    }
}

/// Two indices below `2^n` that agree on their lowest `n` bits are equal.
proof fn lemma_bits_eq(x: u64, y: u64, n: u64)
    requires
        n < 64,
        x < 1u64 << n,
        y < 1u64 << n,
        forall|p: u64| p < n ==> #[trigger] bit(x, p) == bit(y, p),
    ensures
        x == y,
    decreases n,
{
    if n == 0 {
        assert(x < 1u64 << 0u64 && y < 1u64 << 0u64 ==> x == y) by (bit_vector);
    } else {
        let m = (n - 1) as u64;
        let (xs, ys) = (x >> 1, y >> 1);
        assert(x < 1u64 << n && n >= 1 && n < 64 && m == n - 1 ==> x >> 1 < 1u64 << m) by (bit_vector);
        assert(y < 1u64 << n && n >= 1 && n < 64 && m == n - 1 ==> y >> 1 < 1u64 << m) by (bit_vector);
        assert forall|p: u64| p < m implies #[trigger] bit(xs, p) == bit(ys, p) by {
            let p1 = (p + 1) as u64;
            assert(bit(x, p1) == bit(y, p1));
            assert(p < 63 && p1 == p + 1 ==> ((x >> 1) >> p) & 1 == (x >> p1) & 1) by (bit_vector);
            assert(p < 63 && p1 == p + 1 ==> ((y >> 1) >> p) & 1 == (y >> p1) & 1) by (bit_vector);
        }
        lemma_bits_eq(xs, ys, m);
        assert(bit(x, 0) == bit(y, 0));
        assert((x >> 1) == (y >> 1) && (x >> 0u64) & 1 == (y >> 0u64) & 1 ==> x == y) by (bit_vector);
    }
}

/// Rearranging the tensor factors by a permutation and then by its inverse gives the
/// operator back, entry for entry.
pub proof fn law_permute_inverse(m: MatVal, order: Seq<usize>, inv: Seq<usize>)
    requires
        is_square(m),
        is_perm(order),
        is_perm(inv),
        inv.len() == order.len(),
        forall|k: int| 0 <= k < order.len() ==> #[trigger] inv[order[k] as int] == k,
        forall|k: int| 0 <= k < order.len() ==> #[trigger] order[inv[k] as int] == k,
        m.len() == 1u64 << (order.len() as u64),
    ensures
        permuted(permuted(m, order), inv) == m,
{
    let n = order.len();
    let nn = n as u64;
    let pm = permuted(m, order);
    assert forall|x: int| 0 <= x < m.len() implies 0 <= #[trigger] src(x, inv) < m.len() && src(
        src(x, inv),
        order,
    ) == x by {
        let xu = x as u64;
        if n == 0 {
            assert(1u64 << 0u64 == 1) by (bit_vector);
            assert(x == 0);
        } else {
            lemma_source_index_bound(xu, inv, n);
            let y = source_index(xu, inv, n);
            lemma_source_index_bound(y, order, n);
            let z = source_index(y, order, n);
            assert forall|p: u64| p < nn implies #[trigger] bit(z, p) == bit(xu, p) by {
                let j = (n - 1 - p) as int;
                let k = inv[j] as int;
                lemma_source_bits(y, order, n, k);
                lemma_source_bits(xu, inv, n, j);
                assert(order[k] == j);
            }
            lemma_bits_eq(z, xu, nn);
        }
    }
    assert(permuted(pm, inv) =~~= m) by {
        assert forall|r: int| 0 <= r < m.len() implies #[trigger] permuted(pm, inv)[r] =~= m[r] by {
            assert forall|c: int| 0 <= c < m.len() implies permuted(pm, inv)[r][c] == m[r][c] by {
                assert(0 <= src(r, inv) < m.len());
                assert(0 <= src(c, inv) < m.len());
            }
        }
    }
}

/// An index below `ad * bd * cd`, read in blocks of `cd` then `bd`, or of `bd * cd`.
proof fn lemma_index3(x: int, ad: int, bd: int, cd: int)
    requires
        ad > 0,
        bd > 0,
        cd > 0,
        0 <= x < ad * bd * cd,
    ensures
        0 <= x / cd < ad * bd,
        0 <= x / (bd * cd) < ad,
        0 <= x % (bd * cd) < bd * cd,
        x / cd / bd == x / (bd * cd),
        (x / cd) % bd == (x % (bd * cd)) / cd,
        (x % (bd * cd)) % cd == x % cd,
{
    assert(ad * bd * cd == ad * (bd * cd)) by (nonlinear_arith);
    assert(bd * cd > 0) by (nonlinear_arith)
        requires bd > 0, cd > 0;
    lemma_split(x, ad, bd * cd);
    let q = x / (bd * cd);
    let rem = x % (bd * cd);
    lemma_split(rem, bd, cd);
    let k = rem / cd;
    let l = rem % cd;
    assert(x == (q * bd + k) * cd + l) by (nonlinear_arith)
        requires x == q * (bd * cd) + rem, rem == k * cd + l;
    assert(0 <= q * bd + k < ad * bd) by (nonlinear_arith)
        requires 0 <= q < ad, 0 <= k < bd;
    lemma_fundamental_div_mod_converse(x, cd, q * bd + k, l);
    lemma_fundamental_div_mod_converse(q * bd + k, bd, q, k);
}

/// Every row of a tensor product of square operators is as long as the product.
proof fn lemma_kron_square(a: MatVal, b: MatVal)
    requires
        is_square(a),
        is_square(b),
        a.len() > 0,
        b.len() > 0,
    ensures
        is_square(kron(a, b)),
        kron(a, b).len() == a.len() * b.len(),
        a.len() * b.len() > 0,
{
    assert(a.len() * b.len() > 0) by (nonlinear_arith)
        requires a.len() > 0, b.len() > 0;
}

/// The tensor product is associative.
pub proof fn law_tensor_assoc(a: MatVal, b: MatVal, c: MatVal)
    requires
        is_square(a),
        is_square(b),
        is_square(c),
        a.len() > 0,
        b.len() > 0,
        c.len() > 0,
    ensures
        kron(kron(a, b), c) == kron(a, kron(b, c)),
{
    let (ad, bd, cd) = (a.len() as int, b.len() as int, c.len() as int);
    lemma_kron_square(a, b);
    lemma_kron_square(b, c);
    lemma_kron_square(kron(a, b), c);
    lemma_kron_square(a, kron(b, c));
    let lhs = kron(kron(a, b), c);
    let rhs = kron(a, kron(b, c));
    assert(ad * bd * cd == ad * (bd * cd)) by (nonlinear_arith);
    assert forall|r: int| 0 <= r < lhs.len() implies #[trigger] lhs[r] =~= rhs[r] by {
        assert forall|s: int| 0 <= s < lhs.len() implies lhs[r][s] == rhs[r][s] by {
            lemma_index3(r, ad, bd, cd);
            lemma_index3(s, ad, bd, cd);
            lemma_mul_assoc(
                a[r / (bd * cd)][s / (bd * cd)],
                b[(r / cd) % bd][(s / cd) % bd],
                c[r % cd][s % cd],
            );
        }
    }
    assert(lhs =~= rhs);
}

/// On a three-qubit register, extending an operator to the middle qubit is
/// `(I(2) ⊗ op) ⊗ I(2)`.
pub proof fn law_extend_single_middle(op: MatVal)
    requires
        is_square(op),
        op.len() == 2,
    ensures
        embed_one(op, 1, 3) == kron(kron(eye(2), op), eye(2)),
{
    lemma2_to64();
    assert(is_square(eye(2)));
    law_tensor_assoc(eye(2), op, eye(2));
}

/// The factor order used to place a two-qubit operator takes its first factor
/// (position 0) to `idx1` and its second (position 1) to `idx2`.
pub proof fn law_pair_order_targets(idx1: nat, idx2: nat, n: nat)
    requires
        idx1 < n,
        idx2 < n,
        idx1 != idx2,
    ensures
        pair_order(idx1, idx2, n)[idx1 as int] == 0,
        pair_order(idx1, idx2, n)[idx2 as int] == 1,
{
}

/// Qubit `a` of index `x` over `n` qubits: bit `n - 1 - a`, qubit 0 being the most
/// significant.
pub open spec fn qubit_bit(x: int, a: int, n: nat) -> int {
    bit(x as u64, (n - 1 - a) as u64) as int
}

/// `r` and `c` agree on every qubit but `idx1` and `idx2`.
pub open spec fn agree_elsewhere(r: int, c: int, idx1: nat, idx2: nat, n: nat) -> bool {
    forall|a: int|
        0 <= a < n && a != idx1 && a != idx2 ==> #[trigger] qubit_bit(r, a, n) == qubit_bit(
            c,
            a,
            n,
        )
}

/// The position that `pair_order` fills with `a`, for `a >= 2`.
spec fn pair_preimage(idx1: nat, idx2: nat, a: nat) -> nat {
    if idx1 == 1 && idx2 == 0 {
        a
    } else if idx2 == 0 {
        if a == idx1 { 1 } else { a }
    } else {
        let p = if a == idx2 { 1 } else { a };
        if p == idx1 { 0 } else { p }
    }
}

/// The entries of the two-qubit lift, stated directly: entry `(r, c)` is the operator's
/// entry at (qubit `idx1`, qubit `idx2`) of `r` and of `c` when `r` and `c` agree on every
/// other qubit, and zero otherwise. So the operator's first factor acts on `idx1`, its
/// second on `idx2`, and the identity on the rest.
pub proof fn law_embed_two_entries(op: MatVal, idx1: nat, idx2: nat, n: nat, r: int, c: int)
    requires
        is_square(op),
        op.len() == 4,
        idx1 < n,
        idx2 < n,
        idx1 != idx2,
        n < 64,
        0 <= r < pow2(n),
        0 <= c < pow2(n),
    ensures
        embed_two(op, idx1, idx2, n).len() == pow2(n),
        embed_two(op, idx1, idx2, n)[r][c] == if agree_elsewhere(r, c, idx1, idx2, n) {
            op[2 * qubit_bit(r, idx1 as int, n) + qubit_bit(r, idx2 as int, n)][2 * qubit_bit(
                c,
                idx1 as int,
                n,
            ) + qubit_bit(c, idx2 as int, n)]
        } else {
            c_zero()
        },
{
    let order = pair_order(idx1, idx2, n);
    lemma_pair_order_perm(idx1, idx2, n);
    law_pair_order_targets(idx1, idx2, n);
    let nn = n as u64;
    let sh = (n - 2) as u64;
    let n1 = (n - 1) as u64;
    lemma_pow2_shift(nn);
    lemma_pow2_shift(sh);
    lemma_pow2_pos(sh as nat);
    lemma_pow2_adds(2, sh as nat);
    lemma2_to64();
    assert(2 + sh as nat == n);
    let qq = pow2(sh as nat);
    let qu = 1u64 << sh;
    let kk = kron(op, eye(qq));
    assert(kk.len() == pow2(n));
    let ru = r as u64;
    let cu = c as u64;
    lemma_source_index_bound(ru, order, n);
    lemma_source_index_bound(cu, order, n);
    let big_r = source_index(ru, order, n);
    let big_c = source_index(cu, order, n);
    assert(src(r, order) == big_r as int);
    assert(src(c, order) == big_c as int);
    // The two leading axes of the source indices carry qubits idx1 and idx2.
    lemma_source_bits(ru, order, n, idx1 as int);
    lemma_source_bits(ru, order, n, idx2 as int);
    lemma_source_bits(cu, order, n, idx1 as int);
    lemma_source_bits(cu, order, n, idx2 as int);
    assert forall|x: u64| x < (1u64 << nn) implies x / qu == 2 * bit(x, n1) + bit(x, sh) by {
        assert(x < (1u64 << nn) && nn < 64 && nn >= 2 && n1 == nn - 1 && sh == nn - 2 && qu == 1u64 << sh
            ==> x / qu == 2 * ((x >> n1) & 1) + ((x >> sh) & 1)) by (bit_vector);
    }
    assert(big_r / qu == 2 * qubit_bit(r, idx1 as int, n) + qubit_bit(r, idx2 as int, n));
    assert(big_c / qu == 2 * qubit_bit(c, idx1 as int, n) + qubit_bit(c, idx2 as int, n));
    // The trailing axes agree exactly when the remainders do.
    assert forall|x: u64, p: u64| p < sh implies #[trigger] bit(x % qu, p) == bit(x, p) by {
        assert(p < sh && sh < 64 && qu == 1u64 << sh ==> ((x % qu) >> p) & 1 == (x >> p) & 1)
            by (bit_vector);
    }
    let low_agree = forall|p: u64| p < sh ==> #[trigger] bit(big_r, p) == bit(big_c, p);
    if low_agree {
        assert forall|p: u64| p < sh implies #[trigger] bit(big_r % qu, p) == bit(big_c % qu, p) by {
            assert(bit(big_r % qu, p) == bit(big_r, p));
            assert(bit(big_c % qu, p) == bit(big_c, p));
        }
        lemma_bits_eq(big_r % qu, big_c % qu, sh);
    } else {
        let p = choose|p: u64| p < sh && bit(big_r, p) != bit(big_c, p);
        assert(bit(big_r % qu, p) == bit(big_r, p));
        assert(bit(big_c % qu, p) == bit(big_c, p));
    }
    assert(low_agree == (big_r % qu == big_c % qu));
    // The trailing axes are the qubits other than idx1 and idx2.
    if agree_elsewhere(r, c, idx1, idx2, n) {
        assert forall|p: u64| p < sh implies #[trigger] bit(big_r, p) == bit(big_c, p) by {
            let a = (n - 1 - p) as nat;
            let k = pair_preimage(idx1, idx2, a);
            assert(order[k as int] == a);
            lemma_source_bits(ru, order, n, k as int);
            lemma_source_bits(cu, order, n, k as int);
            assert(qubit_bit(r, k as int, n) == qubit_bit(c, k as int, n));
        }
    } else {
        let k = choose|a: int|
            0 <= a < n && a != idx1 && a != idx2 && qubit_bit(r, a, n) != qubit_bit(c, a, n);
        lemma_source_bits(ru, order, n, k);
        lemma_source_bits(cu, order, n, k);
        assert(order[k] != 0 && order[k] != 1);
        let p = (n - 1 - order[k]) as u64;
        assert(bit(big_r, p) != bit(big_c, p));
    }
    assert(big_r % qu < qu && big_c % qu < qu);
    let e = op[(big_r / qu) as int][(big_c / qu) as int];
    lemma_mul_unit(e);
    assert(kk[big_r as int][big_c as int] == c_mul(e, eye(qq)[(big_r % qu) as int][(big_c % qu) as int]));
}

} // verus!
