//! A fold of two evaluations by interpolation is the arity-2 fold step.
use crate::field::{
    cong, econg, ered, finv_z, lemma_cong_diff, lemma_cong_mul, lemma_cong_sub, lemma_econg_add,
    lemma_econg_mul, lemma_econg_scale, lemma_finv, lemma_red_red, lemma_red_small,
    lemma_zmul_assoc, lemma_zmul_comm, pow2k, red, zadd, zmul, zscale, zsub, HALF, P,
};
use crate::fri_fold::{fold_value, lemma_fold_with_cong};
use crate::monolith::cells::inv_at;
use crate::monolith::general::{differences, general_fold, group_weight, weighted_sum};
use crate::monolith::query::lemma_inv_at;
use crate::native_fri::hit;
use crate::prime::{law_inverse_exists, law_no_zero_divisors};
use vstd::arithmetic::power2::{lemma2_to64, pow2};
use vstd::prelude::*;

verus! {

proof fn lemma_mul_scale(a: (int, int), b: (int, int), k: int)
    ensures
        zmul(a, zscale(b, k)) == zscale(zmul(a, b), k),
{
    let (a0, a1, b0, b1) = (a.0, a.1, b.0, b.1);
    assert(a0 * (b0 * k) + 7 * (a1 * (b1 * k)) == (a0 * b0 + 7 * (a1 * b1)) * k) by (nonlinear_arith);
    assert(a0 * (b1 * k) + a1 * (b0 * k) == (a0 * b1 + a1 * b0) * k) by (nonlinear_arith);
}

proof fn lemma_mul_sum(a: (int, int), b: (int, int), c: (int, int))
    ensures
        zmul(a, zadd(b, c)) == zadd(zmul(a, b), zmul(a, c)),
{
    let (a0, a1, b0, b1, c0, c1) = (a.0, a.1, b.0, b.1, c.0, c.1);
    assert(a0 * (b0 + c0) + 7 * (a1 * (b1 + c1)) == (a0 * b0 + 7 * (a1 * b1)) + (a0 * c0 + 7 * (a1
        * c1))) by (nonlinear_arith);
    assert(a0 * (b1 + c1) + a1 * (b0 + c0) == (a0 * b1 + a1 * b0) + (a0 * c1 + a1 * c0))
        by (nonlinear_arith);
}

/// A factor and its inverse cancel.
proof fn lemma_cancel(a: (int, int), i: (int, int), b: (int, int), e: (int, int), u: int)
    requires
        econg(zmul(a, i), (1int, 0int)),
    ensures
        econg(zmul(zmul(a, b), zscale(zmul(e, i), u)), zscale(zmul(b, e), u)),
{
    let x = zmul(e, i);
    lemma_mul_scale(zmul(a, b), x, u);
    // (a b)(e i) = (a b)(i e) = ((a b) i) e = ((b a) i) e = (b (a i)) e
    lemma_zmul_comm(e, i);
    lemma_zmul_assoc(zmul(a, b), i, e);
    lemma_zmul_comm(a, b);
    lemma_zmul_assoc(b, a, i);
    let one = (1int, 0int);
    lemma_econg_mul(b, b, zmul(a, i), one);
    assert(zmul(b, one) == b) by {
        assert(b.0 * 1 == b.0 && b.1 * 0 == 0 && b.0 * 0 == 0 && b.1 * 1 == b.1);
    }
    lemma_econg_mul(zmul(b, zmul(a, i)), b, e, e);
    lemma_econg_scale(zmul(zmul(a, b), x), zmul(b, e), u, u);
}

/// The difference of the cross products, over the integers.
proof fn lemma_cross(e0: (int, int), e1: (int, int), beta: (int, int), s: int, u: int)
    ensures
        ({
            let a = (beta.0 - s, beta.1);
            let b = (beta.0 + s, beta.1);
            zadd(zscale(zmul(b, e0), u), zscale(zmul(a, e1), -u)) == zadd(
                zscale(zadd(e0, e1), s * u),
                zscale(zmul(zsub(e0, e1), beta), u),
            )
        }),
{
    let (p, q, r, t, x, y) = (e0.0, e0.1, e1.0, e1.1, beta.0, beta.1);
    let g0 = (x + s) * p + 7 * (y * q);
    let g1 = (x + s) * q + y * p;
    let h0 = (x - s) * r + 7 * (y * t);
    let h1 = (x - s) * t + y * r;
    let m0 = (p - r) * x + 7 * ((q - t) * y);
    let m1 = (p - r) * y + (q - t) * x;
    assert(g0 - h0 == s * (p + r) + m0) by (nonlinear_arith)
        requires
            g0 == (x + s) * p + 7 * (y * q),
            h0 == (x - s) * r + 7 * (y * t),
            m0 == (p - r) * x + 7 * ((q - t) * y),
    ;
    assert(g1 - h1 == s * (q + t) + m1) by (nonlinear_arith)
        requires
            g1 == (x + s) * q + y * p,
            h1 == (x - s) * t + y * r,
            m1 == (p - r) * y + (q - t) * x,
    ;
    assert(g0 * u + h0 * (-u) == (p + r) * (s * u) + m0 * u) by (nonlinear_arith)
        requires
            g0 - h0 == s * (p + r) + m0,
    ;
    assert(g1 * u + h1 * (-u) == (q + t) * (s * u) + m1 * u) by (nonlinear_arith)
        requires
            g1 - h1 == s * (q + t) + m1,
    ;
}

/// Two is half of one, upside down.
proof fn lemma_half(h: int)
    requires
        red(2 * h) == 1,
    ensures
        cong(h, HALF as int),
{
    lemma_red_small(1);
    assert(2 * HALF == P + 1);
    assert(red(2 * HALF) == 1) by {
        crate::field::lemma_red_add(P as int, 1);
        assert(red(P as int) == 0);
    }
    // h = h (2 H) = (2 h) H = H
    let c = HALF as int;
    lemma_cong_mul(2 * h, 1, c, c);
    lemma_cong_mul(h, h, 2 * c, 1);
    assert((2 * h) * c == h * (2 * c)) by (nonlinear_arith);
    assert(1 * c == c && h * 1 == h);
}

/// The weight of a pair of points, times the first of them, is the inverse of its double.
proof fn lemma_pair_weight(s: int, w: int)
    requires
        red(s) != 0,
        w == finv_z(2 * pow2k(s, 1)),
    ensures
        red(2 * s * (s * w)) == 1,
        red(2 * (s * (s * w))) == 1,
        cong(finv_z(2 * s), s * w),
        red(2 * s * finv_z(2 * s)) == 1,
{
    let q = pow2k(s, 1);
    reveal_with_fuel(pow2k, 2);
    lemma_red_red(s);
    lemma_cong_mul(red(s), s, red(s), s);
    lemma_red_red(red(s) * red(s));
    assert(cong(q, s * s));
    if red(2 * q) == 0 {
        law_no_zero_divisors(2, q);
        lemma_red_small(2);
        law_no_zero_divisors(s, s);
    }
    let c = law_inverse_exists(2 * q);
    lemma_finv(2 * q, c);
    lemma_cong_mul(2, 2, q, s * s);
    lemma_cong_mul(2 * q, 2 * (s * s), w, w);
    assert((2 * (s * s)) * w == 2 * s * (s * w)) by (nonlinear_arith);
    assert(2 * (s * (s * w)) == 2 * s * (s * w)) by (nonlinear_arith);
    lemma_red_small(1);
    if red(2 * s) == 0 {
        law_no_zero_divisors(2, s);
        lemma_red_small(2);
    }
    let k = law_inverse_exists(2 * s);
    lemma_finv(2 * s, k);
    lemma_same_inverse(2 * s, finv_z(2 * s), s * w);
}

proof fn lemma_same_inverse(a: int, b: int, c: int)
    requires
        red(a * b) == 1,
        red(a * c) == 1,
    ensures
        cong(b, c),
{
    lemma_red_small(1);
    lemma_cong_mul(a * b, 1, c, c);
    lemma_cong_mul(b, b, a * c, 1);
    assert((a * b) * c == b * (a * c)) by (nonlinear_arith);
    assert(1 * c == c && b * 1 == b);
}

/// Off the points, the interpolation through a pair is the fold step.
proof fn lemma_pair_off(e0: (int, int), e1: (int, int), beta: (int, int), s: int, t: int)
    requires
        red(s) != 0,
        cong(t, -s),
        ered((beta.0 - s, beta.1)) != (0int, 0int),
        ered((beta.0 - t, beta.1)) != (0int, 0int),
    ensures
        general_fold(seq![e0, e1], beta, seq![s, t], 1) == fold_value(e0, e1, beta, s),
{
    lemma2_to64();
    let (evals, xs) = (seq![e0, e1], seq![s, t]);
    let w = group_weight(xs, 1);
    lemma_pair_weight(s, w);
    let u = s * w;
    let k = finv_z(2 * s);
    let one = (1int, 0int);
    let a = (beta.0 - s, beta.1);
    let b = (beta.0 - t, beta.1);
    let (ia, ib) = (inv_at(beta, s), inv_at(beta, t));
    lemma_inv_at(beta, s);
    lemma_inv_at(beta, t);
    lemma_red_small(1);
    lemma_red_small(0);
    assert(econg(zmul(a, ia), one));
    assert(econg(zmul(b, ib), one));
    reveal_with_fuel(differences, 3);
    reveal_with_fuel(weighted_sum, 3);
    assert(pow2(1) == 2);
    let d = differences(beta, xs, 2);
    assert(zmul(one, a) == a) by {
        assert(1 * a.0 == a.0 && 0 * a.1 == 0 && 1 * a.1 == a.1 && 0 * a.0 == 0);
    }
    assert(d == zmul(a, b));
    let x0 = zscale(zmul(e0, ia), s * w);
    let x1 = zscale(zmul(e1, ib), t * w);
    let sum = weighted_sum(evals, beta, xs, w, 2);
    assert(sum == zadd(x0, x1));
    lemma_mul_sum(d, x0, x1);
    lemma_cancel(a, ia, b, e0, u);
    lemma_cancel(b, ib, a, e1, t * w);
    lemma_zmul_comm(a, b);
    // t w = - s w
    lemma_cong_mul(t, -s, w, w);
    assert((-s) * w == -u) by (nonlinear_arith)
        requires
            u == s * w,
    ;
    lemma_econg_scale(zmul(a, e1), zmul(a, e1), t * w, -u);
    // b = beta + s
    let c = (beta.0 + s, beta.1);
    lemma_cong_sub(beta.0, beta.0, t, -s);
    assert(econg(b, c));
    lemma_econg_mul(b, c, e0, e0);
    lemma_econg_scale(zmul(b, e0), zmul(c, e0), u, u);
    let left = zadd(zmul(d, x0), zmul(d, x1));
    lemma_econg_add(
        zmul(d, x0),
        zscale(zmul(c, e0), u),
        zmul(d, x1),
        zscale(zmul(a, e1), -u),
    );
    lemma_cross(e0, e1, beta, s, u);
    lemma_half(s * u);
    lemma_econg_scale(zadd(e0, e1), zadd(e0, e1), s * u, HALF as int);
    let m = zmul(zsub(e0, e1), beta);
    lemma_econg_scale(m, m, u, k);
    lemma_econg_add(
        zscale(zadd(e0, e1), s * u),
        zscale(zadd(e0, e1), HALF as int),
        zscale(m, u),
        zscale(m, k),
    );
}

/// At a point of the pair, the fold step gives the evaluation there.
proof fn lemma_pair_at(e0: (int, int), e1: (int, int), beta: (int, int), s: int, first: bool)
    requires
        red(s) != 0,
        econg(
            beta,
            (
                if first {
                    s
                } else {
                    -s
                },
                0int,
            ),
        ),
    ensures
        fold_value(e0, e1, beta, s) == ered(
            if first {
                e0
            } else {
                e1
            },
        ),
{
    let w = finv_z(2 * pow2k(s, 1));
    lemma_pair_weight(s, w);
    let k = finv_z(2 * s);
    let h = HALF as int;
    let x = if first {
        s
    } else {
        -s
    };
    let b = (x, 0int);
    lemma_fold_with_cong(e0, e1, beta, k, e0, e1, b, k);
    // s k is one half
    assert(2 * s * k == 2 * (s * k)) by (nonlinear_arith);
    lemma_half(s * k);
    let d = zsub(e0, e1);
    let m = zmul(d, b);
    assert(m == (d.0 * x, d.1 * x)) by {
        assert(d.0 * x + 7 * (d.1 * 0) == d.0 * x && d.0 * 0 + d.1 * x == d.1 * x);
    }
    let sign: int = if first {
        1
    } else {
        -1
    };
    assert(zscale(m, k) == zscale(d, sign * (s * k))) by {
        assert((d.0 * x) * k == d.0 * (sign * (s * k))) by (nonlinear_arith)
            requires
                x == sign * s,
        ;
        assert((d.1 * x) * k == d.1 * (sign * (s * k))) by (nonlinear_arith)
            requires
                x == sign * s,
        ;
    }
    lemma_cong_mul(sign, sign, s * k, h);
    lemma_econg_scale(d, d, sign * (s * k), sign * h);
    let front = zscale(zadd(e0, e1), h);
    lemma_econg_add(front, front, zscale(m, k), zscale(d, sign * h));
    // one half of the sum, and one half of the difference
    let e = if first {
        e0
    } else {
        e1
    };
    assert(zadd(front, zscale(d, sign * h)) == zscale(e, 2 * h)) by {
        let (p, q, r, t) = (e0.0, e0.1, e1.0, e1.1);
        assert((p + r) * h + (p - r) * (1 * h) == p * (2 * h)) by (nonlinear_arith);
        assert((q + t) * h + (q - t) * (1 * h) == q * (2 * h)) by (nonlinear_arith);
        assert((p + r) * h + (p - r) * (-1 * h) == r * (2 * h)) by (nonlinear_arith);
        assert((q + t) * h + (q - t) * (-1 * h) == t * (2 * h)) by (nonlinear_arith);
    }
    lemma_red_small(1);
    assert(red(2 * h) == 1) by {
        assert(2 * HALF == P + 1);
        crate::field::lemma_red_add(P as int, 1);
        assert(red(P as int) == 0);
    }
    lemma_econg_scale(e, e, 2 * h, 1);
    assert(zscale(e, 1) == e) by {
        assert(e.0 * 1 == e.0 && e.1 * 1 == e.1);
    }
}

/// A fold of two evaluations over a point and its negative is the arity-2 fold step, whether the
/// challenge is one of the points or not.
pub proof fn law_pair_fold(e0: (int, int), e1: (int, int), beta: (int, int), s: int, t: int)
    requires
        red(s) != 0,
        cong(t, -s),
    ensures
        match hit(beta, seq![s, t], 0) {
            Some(i) => ered(seq![e0, e1][i]) == fold_value(e0, e1, beta, s),
            None => general_fold(seq![e0, e1], beta, seq![s, t], 1) == fold_value(e0, e1, beta, s),
        },
{
    let xs = seq![s, t];
    reveal_with_fuel(hit, 3);
    lemma_red_small(0);
    if ered((beta.0 - s, beta.1)) == (0int, 0int) {
        lemma_cong_diff(beta.0, s);
        lemma_pair_at(e0, e1, beta, s, true);
    } else if ered((beta.0 - t, beta.1)) == (0int, 0int) {
        lemma_cong_diff(beta.0, t);
        lemma_pair_at(e0, e1, beta, s, false);
    } else {
        lemma_pair_off(e0, e1, beta, s, t);
    }
}

} // verus!
