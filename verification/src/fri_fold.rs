//! The arity-2 fold step of a low-degree test over the quadratic extension, natively and as a
//! constraint system.
use crate::expr::{
    cells, cst, cur, cur_ext, denote, emit, Constraint, Env, Expr, ExtExpr, Gate, holds, pair, pis,
    row_env, satisfied, Trace,
};
use crate::field::{
    eadd, ecanonical, econg, emul, ered, escale, esub, finv_z, fmul, inverse, ints, is_inverse,
    lemma_cong_diff, lemma_econg_add, lemma_econg_mul, lemma_econg_scale, lemma_econg_sub,
    lemma_ered, lemma_finv, lemma_finv_cong, lemma_red_red, lemma_red_small, cong, red, zadd, zmul,
    zscale, zsub, Challenge, HALF,
};
use vstd::prelude::*;

verus! {

/// Columns: the two evaluations, the challenge, the evaluation point, the inverse of its double,
/// the folded value.
pub const E0: usize = 0;

pub const E1: usize = 2;

pub const BETA: usize = 4;

pub const S: usize = 6;

pub const INV2S: usize = 7;

pub const FOLDED: usize = 8;

pub const WIDTH: usize = 10;

pub const HEIGHT: usize = 16;

/// `(e0 + e1) / 2 + (e0 - e1) beta k`, before reduction.
pub open spec fn fold_with(
    e0: (int, int),
    e1: (int, int),
    beta: (int, int),
    k: int,
) -> (int, int) {
    zadd(zscale(zadd(e0, e1), HALF as int), zscale(zmul(zsub(e0, e1), beta), k))
}

/// The folded value `(e0 + e1) / 2 + (e0 - e1) beta / (2 s)`.
pub open spec fn fold_value(
    e0: (int, int),
    e1: (int, int),
    beta: (int, int),
    s: int,
) -> (int, int) {
    ered(fold_with(e0, e1, beta, finv_z(2 * s)))
}

pub proof fn lemma_fold_with_cong(
    e0: (int, int),
    e1: (int, int),
    beta: (int, int),
    k: int,
    f0: (int, int),
    f1: (int, int),
    gamma: (int, int),
    l: int,
)
    requires
        econg(e0, f0),
        econg(e1, f1),
        econg(beta, gamma),
        cong(k, l),
    ensures
        econg(fold_with(e0, e1, beta, k), fold_with(f0, f1, gamma, l)),
{
    lemma_econg_add(e0, f0, e1, f1);
    lemma_econg_sub(e0, f0, e1, f1);
    lemma_econg_scale(zadd(e0, e1), zadd(f0, f1), HALF as int, HALF as int);
    lemma_econg_mul(zsub(e0, e1), zsub(f0, f1), beta, gamma);
    lemma_econg_scale(zmul(zsub(e0, e1), beta), zmul(zsub(f0, f1), gamma), k, l);
    lemma_econg_add(
        zscale(zadd(e0, e1), HALF as int),
        zscale(zadd(f0, f1), HALF as int),
        zscale(zmul(zsub(e0, e1), beta), k),
        zscale(zmul(zsub(f0, f1), gamma), l),
    );
}

/// The inverse of `2 s`.
pub fn inverse_of_double(s: u64) -> (r: u64)
    requires
        red(2 * s) != 0,
    ensures
        r == finv_z(2 * s),
        is_inverse(2 * s, r as int),
{
    let d: u64 = fmul(2, s);
    proof {
        lemma_red_red(2 * s);
    }
    let r: u64 = inverse(d);
    proof {
        lemma_finv_cong(d as int, 2 * s);
    }
    r
}

/// The arity-2 fold: `(e0 + e1) / 2 + (e0 - e1) beta / (2 s)`.
pub fn native_fold(e0: Challenge, e1: Challenge, beta: Challenge, s: u64) -> (r: Challenge)
    requires
        red(2 * s) != 0,
    ensures
        r@ == fold_value(e0@, e1@, beta@, s as int),
        ecanonical(r),
{
    let k: u64 = inverse_of_double(s);
    let sum: Challenge = eadd(e0, e1);
    let diff: Challenge = esub(e0, e1);
    let half: Challenge = escale(sum, HALF);
    let prod: Challenge = emul(diff, beta);
    let slope: Challenge = escale(prod, k);
    let r: Challenge = eadd(half, slope);
    proof {
        lemma_ered(zadd(e0@, e1@));
        lemma_ered(zsub(e0@, e1@));
        lemma_ered(zmul(diff@, beta@));
        lemma_ered(zscale(sum@, HALF as int));
        lemma_ered(zscale(prod@, k as int));
        lemma_econg_scale(sum@, zadd(e0@, e1@), HALF as int, HALF as int);
        lemma_econg_mul(diff@, zsub(e0@, e1@), beta@, beta@);
        lemma_econg_scale(prod@, zmul(zsub(e0@, e1@), beta@), k as int, k as int);
        lemma_econg_add(
            half@,
            zscale(zadd(e0@, e1@), HALF as int),
            slope@,
            zscale(zmul(zsub(e0@, e1@), beta@), k as int),
        );
    }
    r
}

/// The fold of one pair, checked on the first row: the inverse is right, the folded columns hold
/// the fold, and the public values are the folded columns.
pub struct FriFoldAir;

/// The folded value that the first row calls for.
pub open spec fn folded_cells(row: Seq<int>) -> (int, int) {
    fold_with(pair(row, 0), pair(row, 2), pair(row, 4), row[7])
}

pub open spec fn fold_air_polys(env: Env) -> Seq<(Gate, int)> {
    let c = env.cur;
    let f = folded_cells(c);
    seq![
        (Gate::First, c[7] * (2 * c[6]) - 1),
        (Gate::First, c[8] - f.0),
        (Gate::First, c[9] - f.1),
        (Gate::First, c[8] - env.pis[0]),
        (Gate::First, c[9] - env.pis[1]),
    ]
}

impl FriFoldAir {
    pub fn width(&self) -> (r: usize)
        ensures
            r == WIDTH,
    {
        WIDTH
    }

    pub fn num_public_values(&self) -> (r: usize)
        ensures
            r == 2,
    {
        2
    }

    pub fn eval(&self) -> (r: Vec<Constraint>)
        ensures
            forall|env: Env| #[trigger] denote(r@, env) == fold_air_polys(env),
    {
        let e0: ExtExpr = cur_ext(E0);
        let e1: ExtExpr = cur_ext(E1);
        let beta: ExtExpr = cur_ext(BETA);
        let inv2s: Expr = cur(INV2S);
        let half: Expr = cst(HALF);
        let sum: ExtExpr = e0.plus(&e1);
        let prod: ExtExpr = e0.minus(&e1).times(&beta);
        let f0: Expr = sum.c0.times(&half).plus(&prod.c0.times(&inv2s));
        let f1: Expr = sum.c1.times(&half).plus(&prod.c1.times(&inv2s));
        proof {
            assert forall|env: Env| #[trigger] f0.val(env) == folded_cells(env.cur).0 by {
                assert(sum.val(env).0 == sum.c0.val(env));
                assert(prod.val(env).0 == prod.c0.val(env));
            }
            assert forall|env: Env| #[trigger] f1.val(env) == folded_cells(env.cur).1 by {
                assert(sum.val(env).1 == sum.c1.val(env));
                assert(prod.val(env).1 == prod.c1.val(env));
            }
        }
        let mut out: Vec<Constraint> = Vec::new();
        emit(&mut out, Gate::First, inv2s.times(&cst(2).times(&cur(S))).minus(&cst(1)));
        emit(&mut out, Gate::First, cur(FOLDED).minus(&f0));
        emit(&mut out, Gate::First, cur(FOLDED + 1).minus(&f1));
        emit(&mut out, Gate::First, cur(FOLDED).minus(&pis(0)));
        emit(&mut out, Gate::First, cur(FOLDED + 1).minus(&pis(1)));
        proof {
            assert forall|env: Env| #[trigger] denote(out@, env) == fold_air_polys(env) by {
                assert(denote(out@, env) =~= fold_air_polys(env));
            }
        }
        out
    }
}

/// The row that folds `e0` and `e1`.
pub open spec fn fold_row(
    e0: (int, int),
    e1: (int, int),
    beta: (int, int),
    s: int,
) -> Seq<int> {
    let f = fold_value(e0, e1, beta, s);
    seq![e0.0, e0.1, e1.0, e1.1, beta.0, beta.1, s, finv_z(2 * s), f.0, f.1]
}

/// The trace that folds `e0` and `e1`: one row, repeated.
pub open spec fn fold_trace(
    e0: (int, int),
    e1: (int, int),
    beta: (int, int),
    s: int,
) -> Seq<Seq<int>> {
    Seq::new(HEIGHT as nat, |r: int| fold_row(e0, e1, beta, s))
}

/// Fills the trace that folds `e0` and `e1`.
pub fn build_trace(e0: Challenge, e1: Challenge, beta: Challenge, s: u64) -> (t: Trace)
    requires
        red(2 * s) != 0,
    ensures
        cells(t@) == fold_trace(e0@, e1@, beta@, s as int),
{
    let f: Challenge = native_fold(e0, e1, beta, s);
    let k: u64 = inverse_of_double(s);
    let mut t: Trace = Vec::new();
    for r in 0..HEIGHT
        invariant
            f@ == fold_value(e0@, e1@, beta@, s as int),
            k == finv_z(2 * s),
            t.len() == r,
            forall|i: int|
                0 <= i < r ==> ints((#[trigger] t@[i])@) == fold_row(e0@, e1@, beta@, s as int),
    {
        let row: Vec<u64> = vec![
            e0.c0,
            e0.c1,
            e1.c0,
            e1.c1,
            beta.c0,
            beta.c1,
            s,
            k,
            f.c0,
            f.c1,
        ];
        assert(ints(row@) =~= fold_row(e0@, e1@, beta@, s as int));
        t.push(row);
    }
    assert(cells(t@) =~= fold_trace(e0@, e1@, beta@, s as int));
    t
}

/// Whatever trace meets the constraints, its public values are the fold of its first row.
pub proof fn law_fold_sound(t: Seq<Seq<int>>, claimed: (int, int))
    requires
        t.len() > 0,
        satisfied(
            |env: Env| fold_air_polys(env),
            t,
            Seq::empty(),
            seq![claimed.0, claimed.1],
        ),
    ensures
        econg(
            claimed,
            fold_value(pair(t[0], 0), pair(t[0], 2), pair(t[0], 4), t[0][6]),
        ),
{
    let pv = seq![claimed.0, claimed.1];
    let env = row_env(t, Seq::empty(), pv, 0);
    let p = fold_air_polys(env);
    assert(holds(p, 0, t.len() as int));
    assert(red(p[0].1) == 0 && red(p[1].1) == 0 && red(p[2].1) == 0 && red(p[3].1) == 0 && red(
        p[4].1,
    ) == 0);
    let (c, s) = (t[0], t[0][6]);
    lemma_cong_diff(c[7] * (2 * s), 1);
    lemma_red_small(1);
    assert(c[7] * (2 * s) == (2 * s) * c[7]) by (nonlinear_arith);
    let k = red(c[7]);
    lemma_red_red(c[7]);
    crate::field::lemma_cong_mul(2 * s, 2 * s, c[7], k);
    assert(is_inverse(2 * s, k));
    lemma_finv(2 * s, k);
    let (a, b, d) = (pair(c, 0), pair(c, 2), pair(c, 4));
    lemma_fold_with_cong(a, b, d, c[7], a, b, d, k);
    lemma_ered(fold_with(a, b, d, k));
    lemma_cong_diff(c[8], folded_cells(c).0);
    lemma_cong_diff(c[9], folded_cells(c).1);
    lemma_cong_diff(c[8], claimed.0);
    lemma_cong_diff(c[9], claimed.1);
}

/// The trace that is built meets the constraints exactly for the public values that are the fold.
pub proof fn law_fold_complete(
    e0: (int, int),
    e1: (int, int),
    beta: (int, int),
    s: int,
    claimed: (int, int),
)
    requires
        is_inverse(2 * s, finv_z(2 * s)),
    ensures
        satisfied(
            |env: Env| fold_air_polys(env),
            fold_trace(e0, e1, beta, s),
            Seq::empty(),
            seq![claimed.0, claimed.1],
        ) <==> econg(claimed, fold_value(e0, e1, beta, s)),
{
    let t = fold_trace(e0, e1, beta, s);
    let pv = seq![claimed.0, claimed.1];
    let polys = |env: Env| fold_air_polys(env);
    let row = fold_row(e0, e1, beta, s);
    if satisfied(polys, t, Seq::empty(), pv) {
        law_fold_sound(t, claimed);
        assert(pair(t[0], 0) == e0 && pair(t[0], 2) == e1 && pair(t[0], 4) == beta);
    }
    if econg(claimed, fold_value(e0, e1, beta, s)) {
        let k = finv_z(2 * s);
        let f = fold_with(e0, e1, beta, k);
        lemma_ered(f);
        lemma_cong_diff(k * (2 * s), 1);
        lemma_red_small(1);
        assert(k * (2 * s) == (2 * s) * k) by (nonlinear_arith);
        lemma_cong_diff(ered(f).0, f.0);
        lemma_cong_diff(ered(f).1, f.1);
        lemma_cong_diff(ered(f).0, claimed.0);
        lemma_cong_diff(ered(f).1, claimed.1);
        assert forall|r: int|
            #![trigger row_env(t, Seq::empty(), pv, r)]
            0 <= r < t.len() implies holds(
            polys(row_env(t, Seq::empty(), pv, r)),
            r,
            t.len() as int,
        ) by {
            let env = row_env(t, Seq::empty(), pv, r);
            assert(env.cur == row);
            assert(folded_cells(row) == f);
        }
    }
}

} // verus!
