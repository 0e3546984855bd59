//! What the shared groups of constraints force: bits, canonical decompositions, evaluation points,
//! reduced openings and folds.
use crate::bits::{bit_of, lemma_low_whole, shr_z};
use crate::expr::{pair, vanish};
use crate::field::{
    cong, econg, ered, finv_z, is_einverse, is_inverse, lemma_cong_add, lemma_cong_diff,
    lemma_cong_mul, lemma_cong_sub, lemma_econg_add, lemma_econg_mul, lemma_econg_scale, lemma_einv,
    lemma_ered, lemma_finv, lemma_red_red, lemma_red_small, red, zadd, zmul, zscale, zsub,
    GENERATOR, HALF, P,
};
use crate::fri_fold::{fold_value, fold_with, lemma_fold_with_cong};
use crate::gadgets::{
    apow_polys, bit_z, bits_z, canon_polys, deep_factor, deep_polys, deep_z, fold_polys, fold_z,
    high_z, inv_polys, recon_z, ro_term, ro_z, TermAt,
};
use crate::monolith::cells::{acc_z, inv_at, point_z, power_z};
use crate::prime::law_bits;
use vstd::arithmetic::power2::{lemma2_to64, lemma_pow2_pos, lemma_pow2_unfold, pow2};
use vstd::prelude::*;

verus! {

/// The number whose bits are the residues of `n` cells, the lowest first.
pub open spec fn number(row: Seq<int>, b: int, n: nat) -> int
    decreases n,
{
    if n == 0 {
        0
    } else {
        number(row, b, (n - 1) as nat) + red(row[b + n - 1]) * pow2((n - 1) as nat)
    }
}

/// Every one of `n` cells is a bit in the field.
pub open spec fn bit_range(row: Seq<int>, b: int, n: int) -> bool {
    forall|i: int| 0 <= i < n ==> red(#[trigger] row[b + i]) == 0 || red(row[b + i]) == 1
}

/// Where the bit constraints vanish, the cells are bits.
pub proof fn law_bit_range(row: Seq<int>, b: int, n: int)
    requires
        n >= 0,
        vanish(bits_z(row, b, n)),
    ensures
        bit_range(row, b, n),
{
    assert forall|i: int| 0 <= i < n implies red(#[trigger] row[b + i]) == 0 || red(row[b + i])
        == 1 by {
        assert(red(bits_z(row, b, n)[i]) == 0);
        law_bits(row[b + i]);
    }
}

/// The bits of the number are the cells.
pub proof fn lemma_number(row: Seq<int>, b: int, n: nat)
    requires
        bit_range(row, b, n as int),
    ensures
        0 <= number(row, b, n) < pow2(n),
        forall|i: int|
            0 <= i < n ==> #[trigger] bit_of(number(row, b, n), i) == red(row[b + i]),
    decreases n,
{
    lemma2_to64();
    if n > 0 {
        let m = (n - 1) as nat;
        lemma_number(row, b, m);
        lemma_pow2_unfold(n);
        lemma_pow2_pos(m);
        let (u, t, p) = (number(row, b, m), red(row[b + m]), pow2(m) as int);
        assert(row[b + n - 1] == row[b + m]);
        assert(t == 0 || t == 1);
        let v = number(row, b, n);
        assert(v == u + t * p);
        assert(0 <= t * p <= p && (t == 0 ==> t * p == 0) && (t == 1 ==> t * p == p)) by (nonlinear_arith)
            requires
                t == 0 || t == 1,
                p >= 0,
        ;
        assert forall|i: int| 0 <= i < n implies #[trigger] bit_of(v, i) == red(row[b + i]) by {
            if i < m {
                lemma_top_bit(u, t, m, i as nat);
                assert(bit_of(u, i) == red(row[b + i]));
            } else {
                lemma_top_bit(u, t, m, m);
                lemma_low_whole(u, m);
            }
        }
    }
}

/// A bit on top of a number changes none of the bits below it.
proof fn lemma_top_bit(u: int, t: int, m: nat, i: nat)
    requires
        0 <= u < pow2(m),
        0 <= t,
        i <= m,
    ensures
        shr_z(u + t * pow2(m), i) == shr_z(u, i) + t * pow2((m - i) as nat),
        i < m ==> bit_of(u + t * pow2(m), i as int) == bit_of(u, i as int),
        i == m && t <= 1 ==> bit_of(u + t * pow2(m), i as int) == t,
    decreases i,
{
    lemma2_to64();
    let v = u + t * pow2(m);
    if i > 0 {
        let j = (i - 1) as nat;
        lemma_top_bit(u, t, m, j);
        let (s, p) = (shr_z(u, j), pow2((m - i) as nat) as int);
        lemma_pow2_unfold((m - j) as nat);
        assert(t * pow2((m - j) as nat) == 2 * (t * p)) by (nonlinear_arith)
            requires
                pow2((m - j) as nat) == 2 * p,
        ;
        assert((s + 2 * (t * p)) / 2 == s / 2 + t * p);
    }
    if i < m {
        let p = pow2((m - i - 1) as nat) as int;
        lemma_pow2_unfold((m - i) as nat);
        assert(t * pow2((m - i) as nat) == 2 * (t * p)) by (nonlinear_arith)
            requires
                pow2((m - i) as nat) == 2 * p,
        ;
    } else {
        lemma_low_whole(u, m);
        assert(t * 1 == t);
    }
}

/// A sum of weighted cells is congruent to the number that their residues make up.
pub proof fn lemma_recon(row: Seq<int>, b: int, n: nat)
    ensures
        cong(recon_z(row, b, n), number(row, b, n)),
    decreases n,
{
    if n > 0 {
        let m = (n - 1) as nat;
        lemma_recon(row, b, m);
        let x = row[b + n - 1];
        lemma_red_red(x);
        let p = pow2(m) as int;
        lemma_cong_mul(x, red(x), p, p);
        lemma_cong_add(recon_z(row, b, m), number(row, b, m), x * p, red(x) * p);
    }
}

/// The low half and the high half of a number of cells.
proof fn lemma_number_split(row: Seq<int>, b: int, m: nat, k: nat)
    ensures
        number(row, b, m + k) == number(row, b, m) + pow2(m) * number(row, b + m, k),
    decreases k,
{
    lemma2_to64();
    if k > 0 {
        let j = (k - 1) as nat;
        lemma_number_split(row, b, m, j);
        vstd::arithmetic::power2::lemma_pow2_adds(m, j);
        let (x, p, q, h) = (red(row[b + m + k - 1]), pow2(m) as int, pow2(j) as int, number(row, b + m, j));
        assert(x * (p * q) + p * h == p * (h + x * q)) by (nonlinear_arith);
        assert(b + (m + k) - 1 == b + m + k - 1);
        assert((m + k - 1) as nat == m + j);
    } else {
        assert(pow2(m) * 0 == 0);
    }
}

/// Whether the 32 cells from `b` on are all set in the field.
pub open spec fn all_set(row: Seq<int>, b: int, n: int) -> bool {
    forall|i: int| 0 <= i < n ==> red(#[trigger] row[b + i]) == 1
}

/// The product chain over the high cells ends in one where they are all set, and in zero otherwise.
proof fn lemma_high_chain(row: Seq<int>, b: int, q: int, k: int)
    requires
        0 <= k < 31,
        bit_range(row, b + 32, 32),
        forall|j: int| 0 <= j < 31 ==> red(#[trigger] high_z(row, b, q, j)) == 0,
    ensures
        red(row[q + k]) == (if all_set(row, b + 32, k + 2) {
            1int
        } else {
            0int
        }),
    decreases k,
{
    let before = if k == 0 {
        row[b + 32]
    } else {
        row[q + k - 1]
    };
    let t = row[b + 33 + k];
    assert(red(high_z(row, b, q, k)) == 0);
    lemma_cong_diff(row[q + k], before * t);
    assert(row[b + 32 + (k + 1)] == t);
    assert(red(t) == 0 || red(t) == 1);
    if k == 0 {
        assert(row[b + 32 + 0] == row[b + 32]);
    } else {
        lemma_high_chain(row, b, q, k - 1);
        assert(q + (k - 1) == q + k - 1);
    }
    lemma_red_red(before);
    lemma_red_red(t);
    lemma_cong_mul(before, red(before), t, red(t));
    lemma_red_small(0);
    lemma_red_small(1);
    let (x, y) = (red(before), red(t));
    assert((x == 0 || y == 0 ==> x * y == 0) && (x == 1 && y == 1 ==> x * y == 1)) by (nonlinear_arith);
    let all = all_set(row, b + 32, k + 2);
    if all {
        assert(red(row[b + 32 + (k + 1)]) == 1);
        if k == 0 {
            assert(red(row[b + 32 + 0]) == 1);
        } else {
            assert forall|i: int| 0 <= i < k + 1 implies red(#[trigger] row[b + 32 + i]) == 1 by {}
        }
    } else {
        let i = choose|i: int| 0 <= i < k + 2 && red(#[trigger] row[b + 32 + i]) != 1;
        assert(red(row[b + 32 + i]) == 0);
        if i == k + 1 {
            assert(y == 0);
        } else if k == 0 {
            assert(x == 0);
        } else {
            assert(!all_set(row, b + 32, k + 1));
        }
    }
}

proof fn lemma_number_all_set(row: Seq<int>, b: int, n: nat)
    requires
        bit_range(row, b, n as int),
    ensures
        all_set(row, b, n as int) <==> number(row, b, n) == pow2(n) - 1,
        number(row, b, n) <= pow2(n) - 1,
    decreases n,
{
    lemma2_to64();
    if n > 0 {
        let m = (n - 1) as nat;
        lemma_number_all_set(row, b, m);
        lemma_pow2_unfold(n);
        lemma_pow2_pos(m);
        let (x, p) = (red(row[b + m]), pow2(m) as int);
        assert(row[b + n - 1] == row[b + m]);
        assert((x == 0 ==> x * p == 0) && (x == 1 ==> x * p == p)) by (nonlinear_arith);
        if all_set(row, b, n as int) {
            assert(red(row[b + m]) == 1);
            assert forall|i: int| 0 <= i < m implies red(#[trigger] row[b + i]) == 1 by {}
        } else {
            let i = choose|i: int| 0 <= i < n && red(#[trigger] row[b + i]) != 1;
            if i < m {
                assert(!all_set(row, b, m as int));
            }
        }
        lemma_number(row, b, m);
    }
}

/// Where the constraints of the canonical decomposition vanish, the 64 cells are the binary digits
/// of the canonical representative: no other decomposition is accepted.
pub proof fn law_canonical_bits(row: Seq<int>, x: int, b: int, q: int)
    requires
        vanish(canon_polys(row, x, b, q)),
    ensures
        bit_range(row, b, 64),
        number(row, b, 64) == red(row[x]),
        forall|i: int| 0 <= i < 64 ==> red(#[trigger] row[b + i]) == bit_of(red(row[x]), i),
{
    let c = canon_polys(row, x, b, q);
    let bits = bits_z(row, b, 64);
    assert(vanish(bits)) by {
        assert forall|i: int| 0 <= i < bits.len() implies red(#[trigger] bits[i]) == 0 by {
            assert(red(c[i]) == 0);
        }
    }
    law_bit_range(row, b, 64);
    assert(red(row[x] - recon_z(row, b, 64)) == 0) by {
        assert(red(c[64]) == 0);
    }
    lemma_cong_diff(row[x], recon_z(row, b, 64));
    lemma_recon(row, b, 64);
    lemma_number(row, b, 64);
    let v = number(row, b, 64);
    assert forall|j: int| 0 <= j < 31 implies red(#[trigger] high_z(row, b, q, j)) == 0 by {
        assert(red(c[65 + j]) == 0);
    }
    assert(bit_range(row, b + 32, 32)) by {
        assert forall|i: int| 0 <= i < 32 implies red(#[trigger] row[b + 32 + i]) == 0 || red(
            row[b + 32 + i],
        ) == 1 by {
            assert(row[b + (32 + i)] == row[b + 32 + i]);
        }
    }
    lemma_high_chain(row, b, q, 30);
    lemma_number_split(row, b, 32, 32);
    lemma_number_all_set(row, b + 32, 32);
    lemma_number(row, b + 32, 32);
    assert(bit_range(row, b, 32));
    lemma_number(row, b, 32);
    lemma2_to64();
    let (lo, hi) = (number(row, b, 32), number(row, b + 32, 32));
    assert(v == lo + 0x1_0000_0000 * hi);
    assert(0 <= v < P) by {
        if all_set(row, b + 32, 32) {
            assert(red(row[q + 30] * recon_z(row, b, 32)) == 0) by {
                assert(red(c[96]) == 0);
            }
            lemma_recon(row, b, 32);
            lemma_red_red(row[q + 30]);
            lemma_red_small(1);
            lemma_cong_mul(row[q + 30], 1, recon_z(row, b, 32), lo);
            assert(1 * lo == lo);
            lemma_red_small(lo);
            assert(lo == 0);
        }
    }
    lemma_red_small(v);
}

/// Where the product chain over the bits of an index vanishes, it ends in the evaluation point of
/// that index.
pub proof fn law_deep_point(row: Seq<int>, bits: int, acc: int, n: int)
    requires
        0 < n <= 64,
        vanish(bits_z(row, bits, n)),
        vanish(deep_polys(row, bits, acc, n)),
    ensures
        red((GENERATOR as int) * row[acc + n - 1]) == point_z(number(row, bits, n as nat), n),
{
    law_bit_range(row, bits, n);
    lemma_number(row, bits, n as nat);
    let v = number(row, bits, n as nat);
    lemma_deep_chain(row, bits, acc, n, v, n - 1);
    let a = acc_z(v, n, n as nat);
    lemma_cong_mul(GENERATOR as int, GENERATOR as int, row[acc + n - 1], a);
}

/// The product chain over given bits.
pub proof fn lemma_deep_chain(row: Seq<int>, bits: int, acc: int, n: int, v: int, i: int)
    requires
        0 <= i < n,
        forall|j: int| 0 <= j < n ==> red(#[trigger] row[bits + j]) == bit_of(v, j),
        vanish(deep_polys(row, bits, acc, n)),
    ensures
        cong(row[acc + i], acc_z(v, n, (i + 1) as nat)),
    decreases i,
{
    let before = if i == 0 {
        1
    } else {
        row[acc + i - 1]
    };
    let t = row[bits + i];
    let f = deep_factor(n, i);
    assert(red(deep_polys(row, bits, acc, n)[i]) == 0);
    assert(deep_polys(row, bits, acc, n)[i] == deep_z(row, bits, acc, n, i));
    lemma_cong_diff(row[acc + i], before * (1 + t * (f - 1)));
    let prev = acc_z(v, n, i as nat);
    if i > 0 {
        lemma_deep_chain(row, bits, acc, n, v, i - 1);
        assert(acc + (i - 1) == acc + i - 1);
    }
    assert(cong(before, prev));
    let d = bit_of(v, i);
    assert(red(t) == d && (d == 0 || d == 1));
    lemma_red_red(t);
    lemma_cong_mul(t, d, f - 1, f - 1);
    lemma_cong_add(1, 1, t * (f - 1), d * (f - 1));
    let g = if d == 1 {
        f
    } else {
        1
    };
    assert(1 + d * (f - 1) == g) by (nonlinear_arith)
        requires
            d == 0 || d == 1,
            g == (if d == 1 {
                f
            } else {
                1
            }),
    ;
    lemma_cong_mul(before, prev, 1 + t * (f - 1), g);
    lemma_red_red(prev * g);
}

/// The reduced opening of `n` terms: the sum of `alpha^k (pz - px) / (z - x)`.
pub open spec fn reduced_z(
    zs: Seq<(int, int)>,
    pzs: Seq<(int, int)>,
    pxs: Seq<int>,
    x: int,
    alpha: (int, int),
    n: nat,
) -> (int, int)
    decreases n,
{
    if n == 0 {
        (0, 0)
    } else {
        let m = (n - 1) as nat;
        let d = (pzs[m as int].0 - pxs[m as int], pzs[m as int].1);
        ered(
            zadd(
                reduced_z(zs, pzs, pxs, x, alpha, m),
                zmul(zmul(power_z(alpha, m), d), inv_at(zs[m as int], x)),
            ),
        )
    }
}

/// The columns of a kind of the terms.
pub open spec fn col_zs(row: Seq<int>, cols: Seq<TermAt>) -> Seq<(int, int)> {
    Seq::new(cols.len(), |k: int| pair(row, cols[k].z as int))
}

pub open spec fn col_pzs(row: Seq<int>, cols: Seq<TermAt>) -> Seq<(int, int)> {
    Seq::new(cols.len(), |k: int| pair(row, cols[k].pz as int))
}

pub open spec fn col_pxs(row: Seq<int>, cols: Seq<TermAt>) -> Seq<int> {
    Seq::new(cols.len(), |k: int| row[cols[k].px as int])
}

/// The power chain holds the powers of the challenge.
proof fn lemma_apow(row: Seq<int>, alpha: int, cols: Seq<TermAt>, k: int)
    requires
        0 <= k < cols.len(),
        vanish(apow_polys(row, alpha, cols)),
    ensures
        econg(pair(row, cols[k].apow as int), power_z(pair(row, alpha), k as nat)),
    decreases k,
{
    let polys = apow_polys(row, alpha, cols);
    assert(red(polys[2 * k]) == 0 && red(polys[2 * k + 1]) == 0);
    assert((2 * k) / 2 == k && (2 * k) % 2 == 0 && (2 * k + 1) / 2 == k && (2 * k + 1) % 2 == 1);
    let (a, al) = (pair(row, cols[k].apow as int), pair(row, alpha));
    let due = if k == 0 {
        (1int, 0int)
    } else {
        zmul(pair(row, cols[k - 1].apow as int), al)
    };
    lemma_cong_diff(a.0, due.0);
    lemma_cong_diff(a.1, due.1);
    if k > 0 {
        lemma_apow(row, alpha, cols, k - 1);
        let p = power_z(al, (k - 1) as nat);
        lemma_econg_mul(pair(row, cols[k - 1].apow as int), p, al, al);
        lemma_ered(zmul(p, al));
    }
}

/// Where the powers and the inverses are right, the sum over the columns is the reduced opening.
pub proof fn law_reduced_opening(row: Seq<int>, alpha: int, x: int, cols: Seq<TermAt>, n: nat)
    requires
        n <= cols.len(),
        vanish(apow_polys(row, alpha, cols)),
        vanish(inv_polys(row, x, cols)),
    ensures
        ered(ro_z(row, cols, n)) == reduced_z(
            col_zs(row, cols),
            col_pzs(row, cols),
            col_pxs(row, cols),
            x,
            pair(row, alpha),
            n,
        ),
    decreases n,
{
    lemma_red_small(0);
    if n > 0 {
        let k = n - 1;
        law_reduced_opening(row, alpha, x, cols, k as nat);
        lemma_apow(row, alpha, cols, k);
        let polys = inv_polys(row, x, cols);
        assert(red(polys[2 * k]) == 0 && red(polys[2 * k + 1]) == 0);
        assert((2 * k) / 2 == k && (2 * k) % 2 == 0 && (2 * k + 1) / 2 == k && (2 * k + 1) % 2 == 1);
        let z = pair(row, cols[k].z as int);
        let zx = (z.0 - x, z.1);
        let i = pair(row, cols[k].inv as int);
        let prod = zmul(i, zx);
        lemma_cong_diff(prod.0, 1);
        lemma_red_small(1);
        assert(prod.1 - 0 == prod.1);
        crate::field::lemma_zmul_comm(i, zx);
        let r = ered(i);
        lemma_ered(i);
        lemma_econg_mul(zx, zx, i, r);
        assert(is_einverse(zx, r));
        lemma_einv(zx, r);
        let al = pair(row, alpha);
        let pw = power_z(al, k as nat);
        let pz = pair(row, cols[k].pz as int);
        let d = (pz.0 - row[cols[k].px as int], pz.1);
        let ap = pair(row, cols[k].apow as int);
        lemma_econg_mul(ap, pw, d, d);
        lemma_econg_mul(zmul(ap, d), zmul(pw, d), i, r);
        let before = ro_z(row, cols, k as nat);
        let native = reduced_z(col_zs(row, cols), col_pzs(row, cols), col_pxs(row, cols), x, al, k as nat);
        lemma_ered(before);
        lemma_econg_add(before, native, ro_term(row, cols, k), zmul(zmul(pw, d), r));
    }
}

/// The fold of a group in the order that a bit gives.
pub open spec fn fold_group(
    e: (int, int),
    s: (int, int),
    beta: (int, int),
    bit: int,
    point: int,
) -> (int, int) {
    if bit == 1 {
        fold_value(s, e, beta, point)
    } else {
        fold_value(e, s, beta, point)
    }
}

/// Where the constraints of a fold step vanish, the slot is a bit and the next running evaluation is
/// the fold of the group that the slot orders.
pub proof fn law_fold_step(c: Seq<int>, n: Seq<int>)
    requires
        vanish(fold_polys(c, n)),
    ensures
        red(c[6]) == 0 || red(c[6]) == 1,
        red(c[8] * (2 * c[7])) == 1,
        ered(pair(n, 0)) == fold_group(pair(c, 0), pair(c, 2), pair(c, 4), red(c[6]), c[7]),
{
    let polys = fold_polys(c, n);
    assert(red(polys[0]) == 0 && red(polys[1]) == 0 && red(polys[2]) == 0 && red(polys[3]) == 0);
    law_bits(c[6]);
    let bit = red(c[6]);
    let (e, s, beta, pt, i) = (pair(c, 0), pair(c, 2), pair(c, 4), c[7], c[8]);
    lemma_cong_diff(i * (2 * pt), 1);
    lemma_red_small(1);
    lemma_red_small(0);
    // the inverse
    let k = red(i);
    lemma_red_red(i);
    assert(i * (2 * pt) == (2 * pt) * i) by (nonlinear_arith);
    lemma_cong_mul(2 * pt, 2 * pt, i, k);
    assert(is_inverse(2 * pt, k));
    lemma_finv(2 * pt, k);
    // the sign
    lemma_red_red(c[6]);
    let sign = 1 - 2 * bit;
    lemma_cong_mul(2, 2, c[6], bit);
    lemma_cong_sub(1, 1, 2 * c[6], 2 * bit);
    lemma_cong_mul(1 - 2 * c[6], sign, i, k);
    let f = fold_z(c);
    let prod = zmul(zsub(e, s), beta);
    let sum = zadd(e, s);
    lemma_cong_diff(n[0], f.0);
    lemma_cong_diff(n[1], f.1);
    let scale = (1 - 2 * c[6]) * i;
    lemma_econg_scale(prod, prod, scale, sign * k);
    lemma_econg_add(
        zscale(sum, HALF as int),
        zscale(sum, HALF as int),
        zscale(prod, scale),
        zscale(prod, sign * k),
    );
    if bit == 0 {
        assert(sign * k == k) by (nonlinear_arith)
            requires
                sign == 1,
        ;
        assert(zadd(zscale(sum, HALF as int), zscale(prod, sign * k)) == fold_with(e, s, beta, k));
    } else {
        assert(sign * k == -k) by (nonlinear_arith)
            requires
                sign == -1,
        ;
        let swapped = zmul(zsub(s, e), beta);
        lemma_swap(e, s, beta, k);
        assert(zadd(zscale(sum, HALF as int), zscale(prod, sign * k)) == fold_with(s, e, beta, k));
    }
}

/// Swapping the group changes the sign of the slope.
proof fn lemma_swap(e: (int, int), s: (int, int), beta: (int, int), k: int)
    ensures
        zscale(zmul(zsub(e, s), beta), -k) == zscale(zmul(zsub(s, e), beta), k),
        zadd(e, s) == zadd(s, e),
{
    lemma_neg(e.0 - s.0, beta.0, k);
    lemma_neg(e.1 - s.1, beta.1, k);
    lemma_neg(e.0 - s.0, beta.1, k);
    lemma_neg(e.1 - s.1, beta.0, k);
    let (a, b) = (zsub(e, s), zsub(s, e));
    assert(b.0 == -a.0 && b.1 == -a.1);
    let (x, y) = (a.0 * beta.0, a.1 * beta.1);
    assert((x + 7 * y) * (-k) == (-x + 7 * (-y)) * k) by (nonlinear_arith);
    let (u, w) = (a.0 * beta.1, a.1 * beta.0);
    assert((u + w) * (-k) == (-u + (-w)) * k) by (nonlinear_arith);
}

proof fn lemma_neg(a: int, b: int, k: int)
    ensures
        (-a) * b == -(a * b),
{
    assert((-a) * b == -(a * b)) by (nonlinear_arith);
}

/// The bits of an index and the products over them meet the constraints.
pub proof fn lemma_deep_complete(row: Seq<int>, bits: int, acc: int, n: int, v: int)
    requires
        0 <= n,
        forall|j: int| 0 <= j < n ==> #[trigger] row[bits + j] == bit_of(v, j),
        forall|j: int| 0 <= j < n ==> #[trigger] row[acc + j] == acc_z(v, n, (j + 1) as nat),
    ensures
        vanish(bits_z(row, bits, n)),
        vanish(deep_polys(row, bits, acc, n)),
{
    lemma_red_small(0);
    assert forall|i: int| 0 <= i < n implies red(#[trigger] bits_z(row, bits, n)[i]) == 0 by {
        let b = row[bits + i];
        assert(b == 0 || b == 1);
        assert(bit_z(b) == 0) by (nonlinear_arith)
            requires
                b == 0 || b == 1,
        ;
    }
    assert forall|i: int| 0 <= i < n implies red(#[trigger] deep_polys(row, bits, acc, n)[i])
        == 0 by {
        let before = if i == 0 {
            1
        } else {
            row[acc + i - 1]
        };
        assert(i > 0 ==> row[acc + (i - 1)] == acc_z(v, n, i as nat));
        let (d, f) = (row[bits + i], deep_factor(n, i));
        let g = if d == 1 {
            f
        } else {
            1
        };
        assert(1 + d * (f - 1) == g) by (nonlinear_arith)
            requires
                d == 0 || d == 1,
                g == (if d == 1 {
                    f
                } else {
                    1
                }),
        ;
        assert(acc_z(v, n, 0) == 1);
        assert(row[acc + i] == red(before * g));
        lemma_red_red(before * g);
        lemma_cong_diff(row[acc + i], before * g);
    }
}

/// The powers of the challenge and the inverses meet the constraints.
pub proof fn lemma_opening_complete(row: Seq<int>, alpha: int, x: int, cols: Seq<TermAt>)
    requires
        forall|k: int|
            #![trigger cols[k]]
            0 <= k < cols.len() ==> pair(row, cols[k].apow as int) == power_z(
                pair(row, alpha),
                k as nat,
            ) && is_einverse(
                (pair(row, cols[k].z as int).0 - x, pair(row, cols[k].z as int).1),
                pair(row, cols[k].inv as int),
            ),
    ensures
        vanish(apow_polys(row, alpha, cols)),
        vanish(inv_polys(row, x, cols)),
{
    lemma_red_small(0);
    lemma_red_small(1);
    let al = pair(row, alpha);
    assert forall|j: int| 0 <= j < 2 * cols.len() implies red(
        #[trigger] apow_polys(row, alpha, cols)[j],
    ) == 0 by {
        let k = j / 2;
        assert(pair(row, cols[k].apow as int) == power_z(al, k as nat));
        if k > 0 {
            assert(pair(row, cols[k - 1].apow as int) == power_z(al, (k - 1) as nat));
            let due = zmul(power_z(al, (k - 1) as nat), al);
            lemma_ered(due);
            lemma_cong_diff(ered(due).0, due.0);
            lemma_cong_diff(ered(due).1, due.1);
        }
    }
    assert forall|j: int| 0 <= j < 2 * cols.len() implies red(
        #[trigger] inv_polys(row, x, cols)[j],
    ) == 0 by {
        let k = j / 2;
        let z = pair(row, cols[k].z as int);
        let (zx, i) = ((z.0 - x, z.1), pair(row, cols[k].inv as int));
        assert(is_einverse(zx, i));
        crate::field::lemma_zmul_comm(i, zx);
        let prod = zmul(i, zx);
        lemma_cong_diff(prod.0, 1);
        assert(prod.1 - 0 == prod.1);
    }
}

/// A row with a right inverse whose fold is the next running evaluation meets the constraints.
pub proof fn lemma_fold_complete(c: Seq<int>, n: Seq<int>)
    requires
        c[6] == 0 || c[6] == 1,
        is_inverse(2 * c[7], c[8]),
        econg(pair(n, 0), fold_group(pair(c, 0), pair(c, 2), pair(c, 4), c[6], c[7])),
    ensures
        vanish(fold_polys(c, n)),
{
    let (e, s, beta, pt, k) = (pair(c, 0), pair(c, 2), pair(c, 4), c[7], c[8]);
    lemma_red_small(0);
    lemma_red_small(1);
    lemma_finv(2 * pt, k);
    assert(k * (2 * pt) == (2 * pt) * k) by (nonlinear_arith);
    lemma_cong_diff(k * (2 * pt), 1);
    let bit = c[6];
    assert(bit_z(bit) == 0) by (nonlinear_arith)
        requires
            bit == 0 || bit == 1,
    ;
    let sign = 1 - 2 * bit;
    let prod = zmul(zsub(e, s), beta);
    if bit == 0 {
        assert(sign * k == k) by (nonlinear_arith)
            requires
                sign == 1,
        ;
        assert(fold_z(c) == fold_with(e, s, beta, k));
        lemma_ered(fold_with(e, s, beta, k));
    } else {
        assert(sign * k == -k) by (nonlinear_arith)
            requires
                sign == -1,
        ;
        lemma_swap(e, s, beta, k);
        assert(fold_z(c) == fold_with(s, e, beta, k));
        lemma_ered(fold_with(s, e, beta, k));
    }
    lemma_cong_diff(n[0], fold_z(c).0);
    lemma_cong_diff(n[1], fold_z(c).1);
    let polys = fold_polys(c, n);
    assert(polys[0] == 0 && red(polys[1]) == 0 && red(polys[2]) == 0 && red(polys[3]) == 0);
}

/// Folding depends on the residues of the group alone.
pub proof fn lemma_fold_group_cong(
    e: (int, int),
    f: (int, int),
    s: (int, int),
    beta: (int, int),
    bit: int,
    point: int,
)
    requires
        econg(e, f),
    ensures
        fold_group(e, s, beta, bit, point) == fold_group(f, s, beta, bit, point),
{
    let k = finv_z(2 * point);
    lemma_fold_with_cong(e, s, beta, k, f, s, beta, k);
    lemma_fold_with_cong(s, e, beta, k, s, f, beta, k);
}

/// Folding an evaluation with itself under a zero challenge leaves it.
pub proof fn lemma_fold_idle(e: (int, int), point: int)
    ensures
        econg(e, fold_group(e, e, (0, 0), 0, point)),
{
    let k = finv_z(2 * point);
    let z = zsub(e, e);
    let p = zmul(z, (0int, 0int));
    assert(z.0 * 0 == 0 && z.1 * 0 == 0);
    assert(p == (0int, 0int));
    assert(0 * k == 0);
    let w = fold_with(e, e, (0, 0), k);
    lemma_half(e.0);
    lemma_half(e.1);
    assert(w == ((e.0 + e.0) * (HALF as int), (e.1 + e.1) * (HALF as int)));
    lemma_ered(w);
}

proof fn lemma_half(x: int)
    ensures
        cong((x + x) * (HALF as int), x),
{
    assert((x + x) * (HALF as int) == x * (2 * HALF)) by (nonlinear_arith);
    lemma_red_small(1);
    assert(red(2 * HALF) == 1);
    lemma_cong_mul(x, x, 2 * HALF, 1);
    assert(x * 1 == x);
}

} // verus!
