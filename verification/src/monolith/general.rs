//! Folds of any arity: the interpolation of a group of evaluations at the fold challenge, and the
//! hash of a group of any size.
use super::cells::{extend, inv_at, inverse_at, put, put_ext};
use super::query::{repeat_row, repeated};
use crate::challenger::views;
use crate::expr::{
    cells, cst, cur, cur_ext, denote, emit_all, gated, holds, lemma_holds_concat, lemma_holds_gated,
    pair, pis, row_env, satisfied, vals, vanish, Constraint, Env, Expr, ExtExpr, Gate, Trace,
};
use crate::field::{
    cong, econg, einv_z, ered, exp_power_of_2, finv_z, fmul, ints, inverse, is_einverse, is_inverse,
    lemma_cong_diff, lemma_cong_mul, lemma_econg_add, lemma_econg_mul, lemma_econg_scale,
    lemma_einv, lemma_ered, lemma_finv, lemma_finv_cong, lemma_red_red, lemma_red_small, pow2k, red,
    zadd, zmul, zscale, Challenge,
};
use crate::gadgets::component;
use crate::prime::{law_einverse_exists, law_inverse_exists};
use vstd::arithmetic::power2::{lemma_pow2_pos, lemma_pow2_unfold, pow2};
use vstd::prelude::*;

verus! {

/// `2^k`.
pub fn two_to(k: usize) -> (r: usize)
    requires
        pow2(k as nat) <= usize::MAX,
    ensures
        r == pow2(k as nat),
{
    let mut r: usize = 1;
    proof {
        vstd::arithmetic::power2::lemma2_to64();
    }
    for i in 0..k
        invariant
            pow2(k as nat) <= usize::MAX,
            r == pow2(i as nat),
    {
        proof {
            lemma_pow2_unfold((i + 1) as nat);
            vstd::arithmetic::power2::lemma_pow2_strictly_increases(i as nat, (i + 1) as nat);
            if i + 1 < k {
                vstd::arithmetic::power2::lemma_pow2_strictly_increases((i + 1) as nat, k as nat);
            }
        }
        r = 2 * r;
    }
    r
}

/// The fold of a group of `2^log_arity` evaluations. The public values are the folded evaluation.
pub struct GeneralFoldAir {
    pub log_arity: usize,
}

/// `x` squared `k` times, over the integers.
pub open spec fn squared(x: int, k: nat) -> int
    decreases k,
{
    if k == 0 {
        x
    } else {
        squared(x, (k - 1) as nat) * squared(x, (k - 1) as nat)
    }
}

/// The challenge less point `i` of a group of `a`.
pub open spec fn gf_diff(row: Seq<int>, a: int, i: int) -> (int, int) {
    (row[2 * a] - row[2 * a + 2 + i], row[2 * a + 1])
}

/// The claimed inverse of that difference.
pub open spec fn gf_inv(row: Seq<int>, a: int, i: int) -> (int, int) {
    pair(row, 3 * a + 2 + 2 * i)
}

pub open spec fn gf_inv_z(row: Seq<int>, a: int, j: int) -> int {
    let c = zmul(gf_inv(row, a, j / 2), gf_diff(row, a, j / 2));
    if j % 2 == 0 {
        c.0 - 1
    } else {
        c.1
    }
}

/// The claimed inverses are inverses.
pub open spec fn gf_inv_polys(row: Seq<int>, a: int) -> Seq<int> {
    Seq::new((2 * a) as nat, |j: int| gf_inv_z(row, a, j))
}

/// The product of the first `n` differences.
pub open spec fn gf_product(row: Seq<int>, a: int, n: nat) -> (int, int)
    decreases n,
{
    if n == 0 {
        (1, 0)
    } else {
        zmul(gf_product(row, a, (n - 1) as nat), gf_diff(row, a, n - 1))
    }
}

/// The sum of the first `n` weighted evaluations.
pub open spec fn gf_sum(row: Seq<int>, a: int, n: nat) -> (int, int)
    decreases n,
{
    if n == 0 {
        (0, 0)
    } else {
        let i = n - 1;
        zadd(
            gf_sum(row, a, (n - 1) as nat),
            zscale(
                zmul(pair(row, 2 * i), gf_inv(row, a, i)),
                row[2 * a + 2 + i] * row[5 * a + 2],
            ),
        )
    }
}

/// The constraints of a fold of arity `a == 2^la`, all on the first row.
pub open spec fn gf_polys(env: Env, la: nat) -> Seq<(Gate, int)> {
    let a = pow2(la) as int;
    let c = env.cur;
    let res = zmul(gf_product(c, a, a as nat), gf_sum(c, a, a as nat));
    gated(Gate::First, gf_inv_polys(c, a)) + gated(
        Gate::First,
        seq![
            c[5 * a + 2] * (a * squared(c[2 * a + 2], la)) - 1,
            c[5 * a + 3] - res.0,
            c[5 * a + 4] - res.1,
            c[5 * a + 3] - env.pis[0],
            c[5 * a + 4] - env.pis[1],
        ],
    )
}

impl GeneralFoldAir {
    /// Every column can be addressed.
    pub open spec fn wf(self) -> bool {
        5 * pow2(self.log_arity as nat) + 5 <= usize::MAX
    }

    pub open spec fn arity_z(self) -> int {
        pow2(self.log_arity as nat) as int
    }

    pub fn arity(&self) -> (r: usize)
        requires
            self.wf(),
        ensures
            r == self.arity_z(),
            r > 0,
    {
        proof {
            lemma_pow2_pos(self.log_arity as nat);
        }
        two_to(self.log_arity)
    }

    pub fn c_eval(&self, i: usize) -> (r: usize)
        requires
            self.wf(),
            i < self.arity_z(),
        ensures
            r == 2 * i,
    {
        2 * i
    }

    pub fn c_beta(&self) -> (r: usize)
        requires
            self.wf(),
        ensures
            r == 2 * self.arity_z(),
    {
        2 * self.arity()
    }

    pub fn c_xs(&self, i: usize) -> (r: usize)
        requires
            self.wf(),
            i < self.arity_z(),
        ensures
            r == 2 * self.arity_z() + 2 + i,
    {
        2 * self.arity() + 2 + i
    }

    pub fn c_inv(&self, i: usize) -> (r: usize)
        requires
            self.wf(),
            i < self.arity_z(),
        ensures
            r == 3 * self.arity_z() + 2 + 2 * i,
    {
        3 * self.arity() + 2 + 2 * i
    }

    pub fn c_wscale(&self) -> (r: usize)
        requires
            self.wf(),
        ensures
            r == 5 * self.arity_z() + 2,
    {
        5 * self.arity() + 2
    }

    pub fn c_folded(&self) -> (r: usize)
        requires
            self.wf(),
        ensures
            r == 5 * self.arity_z() + 3,
    {
        5 * self.arity() + 3
    }

    pub fn w(&self) -> (r: usize)
        requires
            self.wf(),
        ensures
            r == 5 * self.arity_z() + 5,
    {
        5 * self.arity() + 5
    }

    pub fn width(&self) -> (r: usize)
        requires
            self.wf(),
        ensures
            r == 5 * self.arity_z() + 5,
    {
        self.w()
    }

    pub fn num_public_values(&self) -> (r: usize)
        ensures
            r == 2,
    {
        2
    }

    fn diff_expr(&self, i: usize) -> (r: ExtExpr)
        requires
            self.wf(),
            i < self.arity_z(),
        ensures
            forall|env: Env| #[trigger] r.val(env) == gf_diff(env.cur, self.arity_z(), i as int),
    {
        let b: usize = self.c_beta();
        ExtExpr { c0: cur(b).minus(&cur(self.c_xs(i))), c1: cur(b + 1) }
    }

    fn inv_exprs(&self) -> (r: Vec<Expr>)
        requires
            self.wf(),
        ensures
            forall|env: Env| #[trigger] vals(r@, env) == gf_inv_polys(env.cur, self.arity_z()),
    {
        let a: usize = self.arity();
        let mut r: Vec<Expr> = Vec::new();
        for i in 0..a
            invariant
                self.wf(),
                a == self.arity_z(),
                r.len() == 2 * i,
                forall|j: int, env: Env|
                    0 <= j < 2 * i ==> (#[trigger] r@[j].val(env)) == gf_inv_z(
                        env.cur,
                        a as int,
                        j,
                    ),
        {
            let chk: ExtExpr = cur_ext(self.c_inv(i)).times(&self.diff_expr(i));
            proof {
                assert forall|env: Env|
                    (#[trigger] chk.c0.val(env)) == zmul(
                        gf_inv(env.cur, a as int, i as int),
                        gf_diff(env.cur, a as int, i as int),
                    ).0 by {
                    assert(chk.val(env).0 == chk.c0.val(env));
                }
                assert forall|env: Env|
                    (#[trigger] chk.c1.val(env)) == zmul(
                        gf_inv(env.cur, a as int, i as int),
                        gf_diff(env.cur, a as int, i as int),
                    ).1 by {
                    assert(chk.val(env).1 == chk.c1.val(env));
                }
            }
            r.push(chk.c0.minus(&cst(1)));
            r.push(chk.c1);
        }
        proof {
            assert forall|env: Env| #[trigger]
                vals(r@, env) == gf_inv_polys(env.cur, self.arity_z()) by {
                assert(vals(r@, env) =~= gf_inv_polys(env.cur, self.arity_z()));
            }
        }
        r
    }

    /// The product of the differences times the sum of the weighted evaluations.
    fn result_expr(&self) -> (r: ExtExpr)
        requires
            self.wf(),
        ensures
            forall|env: Env|
                #[trigger] r.val(env) == zmul(
                    gf_product(env.cur, self.arity_z(), self.arity_z() as nat),
                    gf_sum(env.cur, self.arity_z(), self.arity_z() as nat),
                ),
    {
        let a: usize = self.arity();
        let ws: Expr = cur(self.c_wscale());
        let mut product: ExtExpr = ExtExpr { c0: cst(1), c1: cst(0) };
        let mut sum: ExtExpr = ExtExpr { c0: cst(0), c1: cst(0) };
        proof {
            assert forall|env: Env| #[trigger] product.val(env) == gf_product(env.cur, a as int, 0) by {}
            assert forall|env: Env| #[trigger] sum.val(env) == gf_sum(env.cur, a as int, 0) by {}
        }
        for i in 0..a
            invariant
                self.wf(),
                a == self.arity_z(),
                forall|env: Env| #[trigger] ws.val(env) == env.cur[5 * a + 2],
                forall|env: Env|
                    #[trigger] product.val(env) == gf_product(env.cur, a as int, i as nat),
                forall|env: Env| #[trigger] sum.val(env) == gf_sum(env.cur, a as int, i as nat),
        {
            product = product.times(&self.diff_expr(i));
            let t: ExtExpr = cur_ext(self.c_eval(i)).times(&cur_ext(self.c_inv(i)));
            let weight: Expr = cur(self.c_xs(i)).times(&ws);
            let scaled_t: ExtExpr = ExtExpr {
                c0: t.c0.times(&weight),
                c1: t.c1.times(&weight),
            };
            proof {
                assert forall|env: Env| #[trigger] scaled_t.val(env) == zscale(
                    zmul(pair(env.cur, 2 * i), gf_inv(env.cur, a as int, i as int)),
                    env.cur[2 * a + 2 + i] * env.cur[5 * a + 2],
                ) by {
                    assert(t.val(env) == zmul(
                        pair(env.cur, 2 * i),
                        gf_inv(env.cur, a as int, i as int),
                    ));
                }
            }
            sum = sum.plus(&scaled_t);
        }
        product.times(&sum)
    }

    pub fn eval(&self) -> (r: Vec<Constraint>)
        requires
            self.wf(),
        ensures
            forall|env: Env| #[trigger] denote(r@, env) == gf_polys(env, self.log_arity as nat),
    {
        let a: usize = self.arity();
        let la: usize = self.log_arity;
        let mut power: Expr = cur(self.c_xs(0));
        for i in 0..la
            invariant
                forall|env: Env| #[trigger] power.val(env) == squared(env.cur[2 * a + 2], i as nat),
        {
            power = power.times(&power);
        }
        let res: ExtExpr = self.result_expr();
        let f: usize = self.c_folded();
        let whole: Expr = cur(self.c_wscale()).times(&cst(a as u64).times(&power)).minus(&cst(1));
        let rest: Vec<Expr> = vec![
            whole,
            cur(f).minus(&res.c0),
            cur(f + 1).minus(&res.c1),
            cur(f).minus(&pis(0)),
            cur(f + 1).minus(&pis(1)),
        ];
        let mut out: Vec<Constraint> = Vec::new();
        emit_all(&mut out, Gate::First, &self.inv_exprs());
        emit_all(&mut out, Gate::First, &rest);
        proof {
            assert forall|env: Env| #[trigger] denote(out@, env) == gf_polys(env, la as nat) by {
                let z = self.arity_z();
                let c = env.cur;
                let rz = zmul(gf_product(c, z, z as nat), gf_sum(c, z, z as nat));
                assert(res.val(env) == rz);
                assert(vals(rest@, env) =~= seq![
                    c[5 * z + 2] * (z * squared(c[2 * z + 2], la as nat)) - 1,
                    c[5 * z + 3] - rz.0,
                    c[5 * z + 4] - rz.1,
                    c[5 * z + 3] - env.pis[0],
                    c[5 * z + 4] - env.pis[1],
                ]);
                assert(denote(out@, env) =~= gf_polys(env, la as nat));
            }
        }
        out
    }
}

/// The weight of the points of a group: the inverse of the arity times the common power.
pub open spec fn group_weight(xs: Seq<int>, la: nat) -> int {
    finv_z(pow2(la) * pow2k(xs[0], la))
}

/// The product of the first `n` differences of the challenge and the points.
pub open spec fn differences(beta: (int, int), xs: Seq<int>, n: nat) -> (int, int)
    decreases n,
{
    if n == 0 {
        (1, 0)
    } else {
        zmul(differences(beta, xs, (n - 1) as nat), (beta.0 - xs[n - 1], beta.1))
    }
}

/// The sum of the first `n` evaluations, each over its difference and times its weight.
pub open spec fn weighted_sum(
    evals: Seq<(int, int)>,
    beta: (int, int),
    xs: Seq<int>,
    weight: int,
    n: nat,
) -> (int, int)
    decreases n,
{
    if n == 0 {
        (0, 0)
    } else {
        let i = n - 1;
        zadd(
            weighted_sum(evals, beta, xs, weight, (n - 1) as nat),
            zscale(zmul(evals[i], inv_at(beta, xs[i])), xs[i] * weight),
        )
    }
}

/// The polynomial through the evaluations at the points of a coset of order `2^la`, at the
/// challenge, by the barycentric formula.
pub open spec fn general_fold(
    evals: Seq<(int, int)>,
    beta: (int, int),
    xs: Seq<int>,
    la: nat,
) -> (int, int) {
    ered(
        zmul(
            differences(beta, xs, pow2(la)),
            weighted_sum(evals, beta, xs, group_weight(xs, la), pow2(la)),
        ),
    )
}

/// The evaluations that a row holds.
pub open spec fn row_evals(row: Seq<int>, a: int) -> Seq<(int, int)> {
    Seq::new(a as nat, |i: int| pair(row, 2 * i))
}

/// The points that a row holds.
pub open spec fn row_points(row: Seq<int>, a: int) -> Seq<int> {
    Seq::new(a as nat, |i: int| row[2 * a + 2 + i])
}

proof fn lemma_squared(x: int, k: nat)
    ensures
        cong(squared(x, k), pow2k(x, k)),
    decreases k,
{
    if k == 0 {
        lemma_red_red(x);
    } else {
        let m = (k - 1) as nat;
        lemma_squared(x, m);
        let (a, b) = (squared(x, m), pow2k(x, m));
        lemma_cong_mul(a, b, a, b);
        lemma_red_red(b * b);
    }
}

proof fn lemma_gf_product(row: Seq<int>, a: int, n: nat)
    requires
        n <= a,
    ensures
        gf_product(row, a, n) == differences(pair(row, 2 * a), row_points(row, a), n),
    decreases n,
{
    if n > 0 {
        lemma_gf_product(row, a, (n - 1) as nat);
    }
}

/// The sum over claimed inverses and the sum over inverses.
proof fn lemma_gf_sum(row: Seq<int>, a: int, weight: int, n: nat)
    requires
        n <= a,
        forall|i: int|
            0 <= i < a ==> econg(#[trigger] gf_inv(row, a, i), inv_at(pair(row, 2 * a), row[2 * a + 2 + i])),
        cong(row[5 * a + 2], weight),
    ensures
        econg(
            gf_sum(row, a, n),
            weighted_sum(row_evals(row, a), pair(row, 2 * a), row_points(row, a), weight, n),
        ),
    decreases n,
{
    if n > 0 {
        let i = n - 1;
        lemma_gf_sum(row, a, weight, i as nat);
        let beta = pair(row, 2 * a);
        let (ev, x) = (pair(row, 2 * i), row[2 * a + 2 + i]);
        assert(row_evals(row, a)[i] == ev && row_points(row, a)[i] == x);
        let (u, v) = (gf_inv(row, a, i), inv_at(beta, x));
        assert(econg(u, v));
        lemma_econg_mul(ev, ev, u, v);
        lemma_cong_mul(x, x, row[5 * a + 2], weight);
        lemma_econg_scale(zmul(ev, u), zmul(ev, v), x * row[5 * a + 2], x * weight);
        lemma_econg_add(
            gf_sum(row, a, i as nat),
            weighted_sum(row_evals(row, a), beta, row_points(row, a), weight, i as nat),
            zscale(zmul(ev, u), x * row[5 * a + 2]),
            zscale(zmul(ev, v), x * weight),
        );
    }
}

/// What the constraints demand of the first row.
pub open spec fn gf_holds(row: Seq<int>, pv: Seq<int>, la: nat) -> bool {
    let a = pow2(la) as int;
    &&& vanish(gf_inv_polys(row, a))
    &&& cong(row[5 * a + 2] * (a * squared(row[2 * a + 2], la)), 1)
    &&& econg(
        pair(row, 5 * a + 3),
        zmul(gf_product(row, a, a as nat), gf_sum(row, a, a as nat)),
    )
    &&& econg(pair(row, 5 * a + 3), pair(pv, 0))
}

proof fn lemma_gf_holds(env: Env, la: nat, r: int, h: int)
    ensures
        holds(gf_polys(env, la), r, h) <==> (r == 0 ==> gf_holds(env.cur, env.pis, la)),
{
    let a = pow2(la) as int;
    let c = env.cur;
    let res = zmul(gf_product(c, a, a as nat), gf_sum(c, a, a as nat));
    let p1 = gf_inv_polys(c, a);
    let p2 = seq![
        c[5 * a + 2] * (a * squared(c[2 * a + 2], la)) - 1,
        c[5 * a + 3] - res.0,
        c[5 * a + 4] - res.1,
        c[5 * a + 3] - env.pis[0],
        c[5 * a + 4] - env.pis[1],
    ];
    lemma_holds_gated(Gate::First, p1, r, h);
    lemma_holds_gated(Gate::First, p2, r, h);
    lemma_holds_concat(gated(Gate::First, p1), gated(Gate::First, p2), r, h);
    lemma_cong_diff(c[5 * a + 2] * (a * squared(c[2 * a + 2], la)), 1);
    lemma_cong_diff(c[5 * a + 3], res.0);
    lemma_cong_diff(c[5 * a + 4], res.1);
    lemma_cong_diff(c[5 * a + 3], env.pis[0]);
    lemma_cong_diff(c[5 * a + 4], env.pis[1]);
    if vanish(p2) {
        assert(red(p2[0]) == 0 && red(p2[1]) == 0 && red(p2[2]) == 0 && red(p2[3]) == 0 && red(p2[4])
            == 0);
    }
}

/// Claimed inverses that hold are inverses.
proof fn lemma_gf_inverse(row: Seq<int>, a: int, i: int)
    requires
        vanish(gf_inv_polys(row, a)),
        0 <= i < a,
    ensures
        econg(gf_inv(row, a, i), inv_at(pair(row, 2 * a), row[2 * a + 2 + i])),
{
    let p = gf_inv_polys(row, a);
    assert((2 * i) / 2 == i && (2 * i) % 2 == 0 && (2 * i + 1) / 2 == i && (2 * i + 1) % 2 == 1);
    assert(red(p[2 * i]) == 0 && red(p[2 * i + 1]) == 0);
    let (u, d) = (gf_inv(row, a, i), gf_diff(row, a, i));
    let c = zmul(u, d);
    lemma_cong_diff(c.0, 1);
    lemma_red_small(1);
    crate::field::lemma_zmul_comm(u, d);
    let v = ered(u);
    lemma_ered(u);
    lemma_econg_mul(d, d, u, v);
    crate::field::lemma_red_bound(u.0);
    crate::field::lemma_red_bound(u.1);
    assert(is_einverse(d, v));
    lemma_einv(d, v);
}

/// Where the constraints hold, the public values are the fold of the group that the row holds.
proof fn lemma_gf_sound(row: Seq<int>, pv: Seq<int>, la: nat)
    requires
        gf_holds(row, pv, la),
    ensures
        ({
            let a = pow2(la) as int;
            ered(pair(pv, 0)) == general_fold(
                row_evals(row, a),
                pair(row, 2 * a),
                row_points(row, a),
                la,
            )
        }),
{
    let a = pow2(la) as int;
    lemma_pow2_pos(la);
    assert forall|i: int| 0 <= i < a implies econg(
        #[trigger] gf_inv(row, a, i),
        inv_at(pair(row, 2 * a), row[2 * a + 2 + i]),
    ) by {
        lemma_gf_inverse(row, a, i);
    }
    let (ws, x) = (row[5 * a + 2], row[2 * a + 2]);
    lemma_squared(x, la);
    let (s, k) = (squared(x, la), pow2k(x, la));
    lemma_cong_mul(a, a, s, k);
    lemma_red_red(ws);
    lemma_cong_mul(ws, red(ws), a * s, a * k);
    lemma_red_small(1);
    crate::field::lemma_red_bound(ws);
    assert(red(ws) * (a * k) == (a * k) * red(ws)) by (nonlinear_arith);
    assert(is_inverse(a * k, red(ws)));
    lemma_finv(a * k, red(ws));
    assert(row_points(row, a)[0] == x);
    let weight = group_weight(row_points(row, a), la);
    assert(cong(ws, weight)) by {
        lemma_red_red(ws);
    }
    lemma_gf_sum(row, a, weight, a as nat);
    lemma_gf_product(row, a, a as nat);
    let (l, u) = (gf_product(row, a, a as nat), gf_sum(row, a, a as nat));
    let v = weighted_sum(row_evals(row, a), pair(row, 2 * a), row_points(row, a), weight, a as nat);
    lemma_econg_mul(l, l, u, v);
}

/// Whatever trace meets the constraints, its public values are the interpolation of the evaluations
/// of its first row at the challenge.
pub proof fn law_general_fold_sound(t: Seq<Seq<int>>, pv: Seq<int>, la: nat)
    requires
        t.len() > 0,
        satisfied(|env: Env| gf_polys(env, la), t, Seq::empty(), pv),
    ensures
        ({
            let a = pow2(la) as int;
            ered(pair(pv, 0)) == general_fold(
                row_evals(t[0], a),
                pair(t[0], 2 * a),
                row_points(t[0], a),
                la,
            )
        }),
{
    let polys = |env: Env| gf_polys(env, la);
    let env = row_env(t, Seq::empty(), pv, 0);
    assert(holds(polys(env), 0, t.len() as int));
    lemma_gf_holds(env, la, 0, t.len() as int);
    lemma_gf_sound(t[0], pv, la);
}

/// Extension elements as cells.
pub open spec fn pair_cells(s: Seq<(int, int)>) -> Seq<int> {
    Seq::new(2 * s.len(), |j: int| component(s[j / 2], j % 2))
}

/// The row of a fold: evaluations, challenge, points, inverses, weight, folded evaluation.
pub open spec fn gf_row(
    evals: Seq<(int, int)>,
    beta: (int, int),
    xs: Seq<int>,
    folded: (int, int),
    la: nat,
) -> Seq<int> {
    let a = pow2(la);
    pair_cells(evals.take(a as int)) + seq![beta.0, beta.1] + xs.take(a as int) + pair_cells(
        Seq::new(a, |i: int| inv_at(beta, xs[i])),
    ) + seq![group_weight(xs, la), folded.0, folded.1]
}

/// The challenge is none of the points, and the points are not zero.
pub open spec fn group_ok(beta: (int, int), xs: Seq<int>, la: nat) -> bool {
    &&& forall|i: int| 0 <= i < pow2(la) ==> ered((beta.0 - #[trigger] xs[i], beta.1)) != (0int, 0int)
    &&& red(pow2(la) * pow2k(xs[0], la)) != 0
}

/// Fills the trace of a fold.
pub fn build_general_fold_trace(
    log_arity: usize,
    evals: &[Challenge],
    beta: Challenge,
    xs: &[u64],
    folded: Challenge,
) -> (t: Trace)
    requires
        5 * pow2(log_arity as nat) + 5 <= usize::MAX,
        evals@.len() >= pow2(log_arity as nat),
        xs@.len() >= pow2(log_arity as nat),
        group_ok(beta@, ints(xs@), log_arity as nat),
    ensures
        cells(t@) == repeated(
            gf_row(views(evals@), beta@, ints(xs@), folded@, log_arity as nat),
            16,
        ),
{
    let air: GeneralFoldAir = GeneralFoldAir { log_arity };
    let a: usize = air.arity();
    let ghost (ez, xz, la) = (views(evals@), ints(xs@), log_arity as nat);
    let mut row: Vec<u64> = Vec::new();
    assert(ints(row@) =~= pair_cells(ez.take(0)));
    for i in 0..a
        invariant
            a <= evals@.len(),
            ez == views(evals@),
            ints(row@) == pair_cells(ez.take(i as int)),
    {
        put_ext(&mut row, evals[i]);
        assert(ints(row@) =~= pair_cells(ez.take(i + 1))) by {
            let want = pair_cells(ez.take(i + 1));
            assert forall|j: int| 0 <= j < want.len() implies ints(row@)[j] == want[j] by {
                if j < 2 * i {
                    assert(pair_cells(ez.take(i as int))[j] == want[j]);
                }
            }
        }
    }
    put_ext(&mut row, beta);
    let mut points: Vec<u64> = Vec::new();
    let mut inverses: Vec<u64> = Vec::new();
    let ghost inv = Seq::new(a as nat, |i: int| inv_at(beta@, xz[i]));
    assert(ints(points@) =~= xz.take(0));
    assert(ints(inverses@) =~= pair_cells(inv.take(0)));
    for i in 0..a
        invariant
            a <= xs@.len(),
            a == pow2(la),
            xz == ints(xs@),
            group_ok(beta@, xz, la),
            inv == Seq::new(a as nat, |i: int| inv_at(beta@, xz[i])),
            ints(points@) == xz.take(i as int),
            ints(inverses@) == pair_cells(inv.take(i as int)),
    {
        put(&mut points, xs[i]);
        assert(ints(points@) =~= xz.take(i + 1));
        assert(xz[i as int] == xs@[i as int]);
        assert(ered((beta@.0 - xz[i as int], beta@.1)) != (0int, 0int));
        put_ext(&mut inverses, inverse_at(beta, xs[i]));
        assert(ints(inverses@) =~= pair_cells(inv.take(i + 1))) by {
            let want = pair_cells(inv.take(i + 1));
            assert forall|j: int| 0 <= j < want.len() implies ints(inverses@)[j] == want[j] by {
                if j < 2 * i {
                    assert(pair_cells(inv.take(i as int))[j] == want[j]);
                }
            }
        }
    }
    assert(inv.take(a as int) =~= inv);
    extend(&mut row, &points);
    extend(&mut row, &inverses);
    let power: u64 = exp_power_of_2(xs[0], log_arity);
    let scale: u64 = fmul(a as u64, power);
    proof {
        let whole = pow2(la) * pow2k(xz[0], la);
        assert(xz[0] == xs@[0]);
        assert(scale == red(whole));
        lemma_red_red(whole);
        let i = law_inverse_exists(scale as int);
        lemma_finv_cong(scale as int, whole);
    }
    put(&mut row, inverse(scale));
    put_ext(&mut row, folded);
    assert(ints(row@) =~= gf_row(ez, beta@, xz, folded@, la));
    repeat_row(&row, 16)
}

/// The cells of the row of a fold.
proof fn lemma_gf_row(
    evals: Seq<(int, int)>,
    beta: (int, int),
    xs: Seq<int>,
    folded: (int, int),
    la: nat,
)
    requires
        evals.len() >= pow2(la),
        xs.len() >= pow2(la),
    ensures
        ({
            let a = pow2(la) as int;
            let row = gf_row(evals, beta, xs, folded, la);
            &&& row_evals(row, a) == evals.take(a)
            &&& pair(row, 2 * a) == beta
            &&& row_points(row, a) == xs.take(a)
            &&& forall|i: int| 0 <= i < a ==> #[trigger] row[2 * a + 2 + i] == xs[i]
            &&& forall|i: int| 0 <= i < a ==> #[trigger] gf_inv(row, a, i) == inv_at(beta, xs[i])
            &&& row[5 * a + 2] == group_weight(xs, la)
            &&& pair(row, 5 * a + 3) == folded
        }),
{
    let a = pow2(la) as int;
    let row = gf_row(evals, beta, xs, folded, la);
    let (p1, p3) = (pair_cells(evals.take(a)), pair_cells(Seq::new(a as nat, |i: int| inv_at(beta, xs[i]))));
    assert(p1.len() == 2 * a && p3.len() == 2 * a);
    assert forall|i: int| 0 <= i < a implies #[trigger] row_evals(row, a)[i] == evals.take(a)[i] by {
        assert((2 * i) / 2 == i && (2 * i) % 2 == 0 && (2 * i + 1) / 2 == i && (2 * i + 1) % 2 == 1);
        assert(row[2 * i] == p1[2 * i] && row[2 * i + 1] == p1[2 * i + 1]);
    }
    assert(row_evals(row, a) =~= evals.take(a));
    assert(row_points(row, a) =~= xs.take(a));
    assert forall|i: int| 0 <= i < a implies #[trigger] gf_inv(row, a, i) == inv_at(beta, xs[i]) by {
        assert((2 * i) / 2 == i && (2 * i) % 2 == 0 && (2 * i + 1) / 2 == i && (2 * i + 1) % 2 == 1);
        assert(row[3 * a + 2 + 2 * i] == p3[2 * i] && row[3 * a + 2 + 2 * i + 1] == p3[2 * i + 1]);
    }
}

/// Only the first evaluations and points of a group count.
proof fn lemma_fold_take(evals: Seq<(int, int)>, beta: (int, int), xs: Seq<int>, w: int, a: int, n: nat)
    requires
        n <= a <= evals.len(),
        a <= xs.len(),
    ensures
        differences(beta, xs.take(a), n) == differences(beta, xs, n),
        weighted_sum(evals.take(a), beta, xs.take(a), w, n) == weighted_sum(evals, beta, xs, w, n),
    decreases n,
{
    if n > 0 {
        lemma_fold_take(evals, beta, xs, w, a, (n - 1) as nat);
    }
}

/// The trace of a fold meets the constraints exactly where the folded evaluation is the
/// interpolation at the challenge, and the public one.
pub proof fn law_general_fold_complete(
    evals: Seq<(int, int)>,
    beta: (int, int),
    xs: Seq<int>,
    folded: (int, int),
    la: nat,
    pv: Seq<int>,
)
    requires
        evals.len() >= pow2(la),
        xs.len() >= pow2(la),
        group_ok(beta, xs, la),
    ensures
        satisfied(
            |env: Env| gf_polys(env, la),
            repeated(gf_row(evals, beta, xs, folded, la), 16),
            Seq::empty(),
            pv,
        ) <==> ered(folded) == general_fold(evals, beta, xs, la) && econg(pair(pv, 0), folded),
{
    let a = pow2(la) as int;
    lemma_pow2_pos(la);
    let row = gf_row(evals, beta, xs, folded, la);
    let t = repeated(row, 16);
    let polys = |env: Env| gf_polys(env, la);
    lemma_gf_row(evals, beta, xs, folded, la);
    let w = group_weight(xs, la);
    assert(xs.take(a)[0] == xs[0]);
    lemma_fold_take(evals, beta, xs, w, a, a as nat);
    let inv = gf_inv_polys(row, a);
    lemma_red_small(0);
    assert forall|j: int| 0 <= j < inv.len() implies red(#[trigger] inv[j]) == 0 by {
        let i = j / 2;
        let d = gf_diff(row, a, i);
        assert(gf_inv(row, a, i) == inv_at(beta, xs[i]));
        assert(row[2 * a + 2 + i] == xs[i]);
        assert(ered((beta.0 - xs[i], beta.1)) != (0int, 0int));
        let b = law_einverse_exists(d);
        lemma_einv(d, b);
        let c = zmul(einv_z(d), d);
        crate::field::lemma_zmul_comm(einv_z(d), d);
        lemma_red_small(1);
        lemma_cong_diff(c.0, 1);
    }
    assert forall|i: int| 0 <= i < a implies econg(
        #[trigger] gf_inv(row, a, i),
        inv_at(pair(row, 2 * a), row[2 * a + 2 + i]),
    ) by {}
    lemma_gf_sum(row, a, w, a as nat);
    lemma_gf_product(row, a, a as nat);
    let (l, u) = (gf_product(row, a, a as nat), gf_sum(row, a, a as nat));
    let v = weighted_sum(row_evals(row, a), beta, row_points(row, a), w, a as nat);
    lemma_econg_mul(l, l, u, v);
    let whole = a * pow2k(xs[0], la);
    let x0 = law_inverse_exists(whole);
    lemma_finv(whole, x0);
    lemma_squared(xs[0], la);
    lemma_cong_mul(a, a, squared(xs[0], la), pow2k(xs[0], la));
    lemma_cong_mul(w, w, a * squared(xs[0], la), whole);
    assert(w * whole == whole * w) by (nonlinear_arith);
    lemma_red_small(1);
    assert(row[2 * a + 2 + 0] == xs[0]);
    assert forall|r: int|
        #![trigger row_env(t, Seq::empty(), pv, r)]
        0 <= r < 16 implies (holds(polys(row_env(t, Seq::empty(), pv, r)), r, 16) <==> (r == 0
        ==> ered(folded) == general_fold(evals, beta, xs, la) && econg(pair(pv, 0), folded))) by {
        lemma_gf_holds(row_env(t, Seq::empty(), pv, r), la, r, 16);
    }
    if satisfied(polys, t, Seq::empty(), pv) {
        assert(holds(polys(row_env(t, Seq::empty(), pv, 0)), 0, 16));
    }
}

} // verus!
