//! The points of the constraint systems, built up bit by bit, are the points that a verifier computes
//! from the index.
use crate::bits::{bit_of, lemma_low_mod, lemma_rev_bound, lemma_shr, lemma_shr_add, rev_z, shr_z};
use crate::field::{
    generators, lemma_red_red, lemma_red_small, pow2k, red, two_adic_gen, GENERATOR, P,
};
use crate::gadgets::deep_factor;
use crate::monolith::cells::{acc_z, point_z};
use crate::monolith::index::{fold_acc, fold_factor, fold_point_z};
use crate::native_fri::{fold_points, lemma_pow_add, pow_z, query_point};
use crate::query_data::fold_point;
use vstd::arithmetic::power2::{
    lemma2_to64, lemma_pow2_adds, lemma_pow2_pos, lemma_pow2_unfold, pow2,
};
use vstd::prelude::*;

verus! {

/// Squaring `k` times is raising to the power `2^k`.
proof fn lemma_pow2k(x: int, k: nat)
    ensures
        pow2k(x, k) == pow_z(x, pow2(k)),
    decreases k,
{
    lemma2_to64();
    if k == 0 {
        reveal_with_fuel(pow_z, 2);
        assert(x * 1 == x);
    } else {
        let m = (k - 1) as nat;
        lemma_pow2k(x, m);
        lemma_pow2_unfold(k);
        lemma_pow_add(x, pow2(m), pow2(m));
        assert(pow2(m) + pow2(m) == pow2(k));
    }
}

/// Powers are canonical.
proof fn lemma_pow_red(x: int, n: nat)
    ensures
        red(pow_z(x, n)) == pow_z(x, n),
{
    if n == 0 {
        lemma_red_small(1);
    } else {
        lemma_red_red(x * pow_z(x, (n - 1) as nat));
    }
}

/// A power of a power.
proof fn lemma_pow_mul(x: int, a: nat, b: nat)
    ensures
        pow_z(pow_z(x, a), b) == pow_z(x, a * b),
    decreases b,
{
    if b == 0 {
        assert(a * 0 == 0) by (nonlinear_arith);
    } else {
        let m = (b - 1) as nat;
        lemma_pow_mul(x, a, m);
        lemma_pow_add(x, a, a * m);
        assert(a + a * m == a * b) by (nonlinear_arith)
            requires
                b == m + 1,
        ;
    }
}

/// One more bit of a product of powers: the exponent so far, doubled in weight, and the bit.
proof fn lemma_bit_step(x: int, rev: nat, bit: int, w: nat)
    requires
        bit == 0 || bit == 1,
    ensures
        red(
            pow_z(x, rev * (2 * w)) * (if bit == 1 {
                pow_z(x, w)
            } else {
                1
            }),
        ) == pow_z(x, ((2 * rev + bit) * w) as nat),
{
    let a = (rev * (2 * w)) as nat;
    assert((2 * rev + bit) * w == a + bit * w) by (nonlinear_arith)
        requires
            a == rev * (2 * w),
    ;
    if bit == 1 {
        assert(bit * w == w) by (nonlinear_arith)
            requires
                bit == 1,
        ;
        lemma_pow_add(x, a, w);
    } else {
        assert(bit * w == 0) by (nonlinear_arith)
            requires
                bit == 0,
        ;
        assert(pow_z(x, a) * 1 == pow_z(x, a));
        lemma_pow_red(x, a);
    }
}

/// The product over the `k` lowest bits of an index.
proof fn lemma_acc(v: int, n: int, k: nat)
    requires
        k <= n,
    ensures
        acc_z(v, n, k) == pow_z(two_adic_gen(n), (rev_z(v, k) * pow2((n - k) as nat)) as nat),
    decreases k,
{
    lemma_rev_bound(v, k);
    lemma_pow2_pos((n - k) as nat);
    if k == 0 {
        assert(0 * pow2((n - k) as nat) == 0) by (nonlinear_arith);
    } else {
        let m = (k - 1) as nat;
        lemma_acc(v, n, m);
        lemma_rev_bound(v, m);
        let w = pow2((n - k) as nat);
        lemma_pow2_unfold((n - m) as nat);
        assert(pow2((n - m) as nat) == 2 * w);
        lemma_pow2k(two_adic_gen(n), (n - k) as nat);
        assert(deep_factor(n, k - 1) == pow_z(two_adic_gen(n), w));
        lemma_bit_step(two_adic_gen(n), rev_z(v, m) as nat, bit_of(v, k - 1), w);
    }
}

/// The evaluation point that a product chain over the bits of an index ends in is the point of the
/// query on the coset.
pub proof fn law_deep_point_native(v: int, n: nat)
    ensures
        point_z(v, n as int) == red((GENERATOR as int) * query_point(v, n)),
{
    lemma2_to64();
    lemma_acc(v, n as int, n);
    lemma_rev_bound(v, n);
    assert(rev_z(v, n) * 1 == rev_z(v, n));
}

/// The generators of the subgroups, from a large one down.
proof fn lemma_gen_down(n: int, r: nat)
    requires
        generators(),
        r <= n <= 32,
    ensures
        pow_z(two_adic_gen(n), pow2(r)) == two_adic_gen(n - r),
    decreases r,
{
    lemma2_to64();
    let g = two_adic_gen(n);
    if r == 0 {
        reveal_with_fuel(pow_z, 2);
        assert(g * 1 == g);
        assert(0 < g < P);
        lemma_red_small(g);
    } else {
        let m = (r - 1) as nat;
        lemma_gen_down(n, m);
        lemma_pow2_unfold(r);
        lemma_pow_add(g, pow2(m), pow2(m));
        assert(pow2(m) + pow2(m) == pow2(r));
        let y = two_adic_gen(n - m);
        assert(red(y * y) == two_adic_gen(n - m - 1));
    }
}

/// The product over the bits of an index up to bit `m`, for round `r`.
proof fn lemma_fold_acc(v: int, r: int, m: nat)
    requires
        0 <= r <= 9,
        m <= 9,
    ensures
        m <= r ==> fold_acc(v, r, m) == 1,
        m >= r ==> fold_acc(v, r, m) == pow_z(
            two_adic_gen(10),
            (rev_z(shr_z(v, (r + 1) as nat), (m - r) as nat) * pow2((9 - m + r) as nat)) as nat,
        ),
    decreases m,
{
    lemma_red_small(1);
    let w = shr_z(v, (r + 1) as nat);
    if m <= r {
        if m > 0 {
            lemma_fold_acc(v, r, (m - 1) as nat);
        }
        if m == r {
            assert(0 * pow2(9) == 0);
        }
    } else {
        let k = (m - 1) as nat;
        lemma_fold_acc(v, r, k);
        let (b, c) = ((m - r) as nat, (k - r) as nat);
        lemma_rev_bound(w, c);
        lemma_rev_bound(w, b);
        let p = pow2((9 - m + r) as nat);
        lemma_pow2_unfold((9 - k + r) as nat);
        assert(pow2((9 - k + r) as nat) == 2 * p);
        lemma_pow2k(two_adic_gen(10), (9 - m + r) as nat);
        assert(fold_factor(r, m as int) == pow_z(two_adic_gen(10), p));
        lemma_shr_add(v, (r + 1) as nat, c);
        assert(bit_of(w, b - 1) == bit_of(v, m as int));
        lemma_bit_step(two_adic_gen(10), rev_z(w, c) as nat, bit_of(w, b - 1), p);
    }
}

/// The fold point that a product chain over the bits of an index ends in is the one that a verifier
/// computes for the round.
pub proof fn law_fold_point_native(v: int, r: int)
    requires
        generators(),
        0 <= r <= 9,
    ensures
        fold_point_z(v, r) == fold_point(v, 10, r),
{
    let w = shr_z(v, (r + 1) as nat);
    let e = rev_z(w, (9 - r) as nat);
    lemma_fold_acc(v, r, 9);
    lemma_rev_bound(w, (9 - r) as nat);
    lemma_gen_down(10, r as nat);
    lemma_pow_mul(two_adic_gen(10), pow2(r as nat), e as nat);
    assert(e * pow2(r as nat) == pow2(r as nat) * e) by (nonlinear_arith);
}

/// The bits of an index and of a slot behind them, reversed together: those of the slot stand above those
/// of the index.
proof fn lemma_rev_join(index: int, i: int, lh: nat, la: nat)
    requires
        index >= 0,
        0 <= i < pow2(la),
    ensures
        rev_z(index * pow2(la) + i, lh + la) == rev_z(i, la) * pow2(lh) + rev_z(index, lh),
    decreases lh,
{
    let v = index * pow2(la) + i;
    lemma2_to64();
    lemma_pow2_pos(la);
    assert(v >= 0) by (nonlinear_arith)
        requires
            v == index * pow2(la) + i,
            index >= 0,
            i >= 0,
            pow2(la) > 0,
    ;
    assert(v / (pow2(la) as int) == index && v % (pow2(la) as int) == i) by {
        vstd::arithmetic::div_mod::lemma_fundamental_div_mod_converse(v, pow2(la) as int, index, i);
    }
    lemma_shr(v, la);
    if lh == 0 {
        lemma_low_mod(v, la);
        lemma_low_mod(i, la);
        vstd::arithmetic::div_mod::lemma_small_mod(i as nat, pow2(la));
        lemma_rev_low(v, i, la, la);
        assert(rev_z(i, la) * 1 == rev_z(i, la));
    } else {
        let m = (lh - 1) as nat;
        lemma_rev_join(index, i, m, la);
        lemma_shr_add(v, la, m);
        assert(bit_of(v, (m + la) as int) == bit_of(index, m as int));
        lemma_pow2_unfold(lh);
        let (a, b) = (rev_z(i, la), pow2(m) as int);
        assert(2 * (a * b) == a * (2 * b)) by (nonlinear_arith);
    }
}

/// Numbers that agree in their low bits are reversed alike.
proof fn lemma_rev_low(v: int, i: int, la: nat, k: nat)
    requires
        v >= 0,
        i >= 0,
        k <= la,
        v % (pow2(la) as int) == i,
    ensures
        rev_z(v, k) == rev_z(i, k),
    decreases k,
{
    if k > 0 {
        let m = (k - 1) as nat;
        lemma_rev_low(v, i, la, m);
        lemma_pow2_pos(la);
        let q = v / (pow2(la) as int);
        vstd::arithmetic::div_mod::lemma_fundamental_div_mod(v, pow2(la) as int);
        lemma_pow2_adds(m, (la - m) as nat);
        lemma_pow2_pos(m);
        lemma_pow2_pos((la - m - 1) as nat);
        lemma_pow2_unfold((la - m) as nat);
        let (p, r) = (pow2(m) as int, pow2((la - m - 1) as nat) as int);
        assert(v == p * (2 * (r * q)) + i) by (nonlinear_arith)
            requires
                v == pow2(la) * q + i,
                pow2(la) == p * (2 * r),
        ;
        lemma_shr(v, m);
        lemma_shr(i, m);
        vstd::arithmetic::div_mod::lemma_hoist_over_denominator(i, 2 * (r * q), p as nat);
        assert(v / p == i / p + 2 * (r * q));
        assert((i / p + 2 * (r * q)) % 2 == (i / p) % 2);
    }
}

/// The points of a fold group are the points of its members: that of slot `i` is the point of the index
/// with the slot behind it, at the height above the fold.
pub proof fn law_group_points(index: int, lh: nat, la: nat, i: int)
    requires
        generators(),
        index >= 0,
        lh + la <= 32,
        0 <= i < pow2(la),
    ensures
        fold_points(index, lh, la).len() == pow2(la),
        fold_points(index, lh, la)[i] == query_point(index * pow2(la) + i, lh + la),
{
    let n = lh + la;
    let g = two_adic_gen(n as int);
    let (a, b) = (rev_z(i, la) as nat, rev_z(index, lh) as nat);
    lemma_rev_bound(i, la);
    lemma_rev_bound(index, lh);
    lemma_rev_join(index, i, lh, la);
    lemma_gen_down(n as int, lh);
    lemma_pow2k(g, lh);
    lemma_pow_mul(g, pow2(lh), a);
    assert(pow2(lh) * a == a * pow2(lh)) by (nonlinear_arith);
    lemma_pow_add(g, b, a * pow2(lh));
    assert(b + a * pow2(lh) == rev_z(index * pow2(la) + i, n));
}

} // verus!
