//! Small constraint systems: a constant, counters, a recurrence, products and powers, and a periodic
//! sum. They are what inner proofs are made of where the shape of a proof matters and not its
//! statement.
use crate::expr::{
    active, cst, cur, denote, emit, holds, nxt, per, pis, row_env, satisfied, Constraint, Env, Expr,
    Gate,
};
use crate::field::{cong, ints, lemma_cong_add, lemma_cong_diff, lemma_cong_mul, red};
use vstd::prelude::*;

verus! {

/// The first column starts at a public value.
spec fn start_z(env: Env) -> (Gate, int) {
    (Gate::First, env.cur[0] - env.pis[0])
}

/// A column goes up by one.
spec fn step_z(env: Env, i: int) -> (Gate, int) {
    (Gate::Transition, env.nxt[i] - env.cur[i] - 1)
}

fn start_expr(out: &mut Vec<Constraint>, i: usize)
    ensures
        forall|env: Env|
            #[trigger] denote(final(out)@, env) == denote(old(out)@, env).push(
                (Gate::First, env.cur[i as int] - env.pis[i as int]),
            ),
{
    emit(out, Gate::First, cur(i).minus(&pis(i)));
}

fn step_expr(out: &mut Vec<Constraint>, i: usize)
    ensures
        forall|env: Env|
            #[trigger] denote(final(out)@, env) == denote(old(out)@, env).push(
                (Gate::Transition, env.nxt[i as int] - env.cur[i as int] - 1),
            ),
{
    emit(out, Gate::Transition, nxt(i).minus(&cur(i)).minus(&cst(1)));
}

/// One column that holds a public value on every row.
pub struct ConstAir;

pub open spec fn const_polys(env: Env) -> Seq<(Gate, int)> {
    seq![
        (Gate::First, env.cur[0] - env.pis[0]),
        (Gate::Transition, env.nxt[0] - env.cur[0]),
    ]
}

/// The constraints of the constant column, as polynomials.
pub open spec fn const_constraints() -> Seq<Constraint> {
    seq![
        Constraint {
            gate: Gate::First,
            expr: Expr::Difference(Box::new(Expr::Cur(0)), Box::new(Expr::Public(0))),
        },
        Constraint {
            gate: Gate::Transition,
            expr: Expr::Difference(Box::new(Expr::Next(0)), Box::new(Expr::Cur(0))),
        },
    ]
}

impl ConstAir {
    pub fn width(&self) -> (r: usize)
        ensures
            r == 1,
    {
        1
    }

    pub fn num_public_values(&self) -> (r: usize)
        ensures
            r == 1,
    {
        1
    }

    pub fn eval(&self) -> (r: Vec<Constraint>)
        ensures
            forall|env: Env| #[trigger] denote(r@, env) == const_polys(env),
            r@ == const_constraints(),
    {
        let start: Expr = Expr::Difference(Box::new(Expr::Cur(0)), Box::new(Expr::Public(0)));
        let step: Expr = Expr::Difference(Box::new(Expr::Next(0)), Box::new(Expr::Cur(0)));
        let out: Vec<Constraint> = vec![
            Constraint { gate: Gate::First, expr: start },
            Constraint { gate: Gate::Transition, expr: step },
        ];
        assert(out@ =~= const_constraints());
        assert forall|env: Env| #[trigger] denote(out@, env) == const_polys(env) by {
            reveal_with_fuel(Expr::val, 3);
            assert(denote(out@, env) =~= const_polys(env));
        }
        out
    }
}

/// One column that counts up from a public value.
pub struct CounterAir;

pub open spec fn counter_polys(env: Env) -> Seq<(Gate, int)> {
    seq![
        (Gate::First, env.cur[0] - env.pis[0]),
        (Gate::Transition, env.nxt[0] - env.cur[0] - 1),
    ]
}

impl CounterAir {
    pub fn width(&self) -> (r: usize)
        ensures
            r == 1,
    {
        1
    }

    pub fn num_public_values(&self) -> (r: usize)
        ensures
            r == 1,
    {
        1
    }

    pub fn eval(&self) -> (r: Vec<Constraint>)
        ensures
            forall|env: Env| #[trigger] denote(r@, env) == counter_polys(env),
    {
        let mut out: Vec<Constraint> = Vec::new();
        start_expr(&mut out, 0);
        step_expr(&mut out, 0);
        assert forall|env: Env| #[trigger] denote(out@, env) == counter_polys(env) by {
            assert(denote(out@, env) =~= counter_polys(env));
        }
        out
    }
}

/// Two columns that run through the Fibonacci recurrence from two public values to a third.
pub struct FibonacciAir;

pub open spec fn fibonacci_polys(env: Env) -> Seq<(Gate, int)> {
    let c = env.cur;
    let n = env.nxt;
    seq![
        (Gate::First, c[0] - env.pis[0]),
        (Gate::First, c[1] - env.pis[1]),
        (Gate::Transition, n[0] - c[1]),
        (Gate::Transition, n[1] - c[0] - c[1]),
        (Gate::Last, c[1] - env.pis[2]),
    ]
}

impl FibonacciAir {
    pub fn width(&self) -> (r: usize)
        ensures
            r == 2,
    {
        2
    }

    pub fn num_public_values(&self) -> (r: usize)
        ensures
            r == 3,
    {
        3
    }

    pub fn eval(&self) -> (r: Vec<Constraint>)
        ensures
            forall|env: Env| #[trigger] denote(r@, env) == fibonacci_polys(env),
    {
        let mut out: Vec<Constraint> = Vec::new();
        start_expr(&mut out, 0);
        start_expr(&mut out, 1);
        emit(&mut out, Gate::Transition, nxt(0).minus(&cur(1)));
        emit(&mut out, Gate::Transition, nxt(1).minus(&cur(0)).minus(&cur(1)));
        emit(&mut out, Gate::Last, cur(1).minus(&pis(2)));
        assert forall|env: Env| #[trigger] denote(out@, env) == fibonacci_polys(env) by {
            assert(denote(out@, env) =~= fibonacci_polys(env));
        }
        out
    }
}

/// Two counters and their product.
pub struct MulAir;

pub open spec fn mul_polys(env: Env) -> Seq<(Gate, int)> {
    let c = env.cur;
    let n = env.nxt;
    seq![
        (Gate::First, c[0] - env.pis[0]),
        (Gate::First, c[1] - env.pis[1]),
        (Gate::Always, c[2] - c[0] * c[1]),
        (Gate::Transition, n[0] - c[0] - 1),
        (Gate::Transition, n[1] - c[1] - 1),
    ]
}

impl MulAir {
    pub fn width(&self) -> (r: usize)
        ensures
            r == 3,
    {
        3
    }

    pub fn num_public_values(&self) -> (r: usize)
        ensures
            r == 2,
    {
        2
    }

    pub fn eval(&self) -> (r: Vec<Constraint>)
        ensures
            forall|env: Env| #[trigger] denote(r@, env) == mul_polys(env),
    {
        let mut out: Vec<Constraint> = Vec::new();
        start_expr(&mut out, 0);
        start_expr(&mut out, 1);
        emit(&mut out, Gate::Always, cur(2).minus(&cur(0).times(&cur(1))));
        step_expr(&mut out, 0);
        step_expr(&mut out, 1);
        assert forall|env: Env| #[trigger] denote(out@, env) == mul_polys(env) by {
            assert(denote(out@, env) =~= mul_polys(env));
        }
        out
    }
}

/// One column that sums up a periodic pattern from a public value on.
pub struct PeriodicAir;

/// The pattern that `PeriodicAir` sums up.
pub const PERIODIC_PATTERN: [u64; 2] = [3, 7];

pub open spec fn periodic_polys(env: Env) -> Seq<(Gate, int)> {
    seq![
        (Gate::First, env.cur[0] - env.pis[0]),
        (Gate::Transition, env.nxt[0] - env.cur[0] - env.per[0]),
    ]
}

/// The columns of the pattern.
pub open spec fn pattern_cols() -> Seq<Seq<int>> {
    seq![seq![3int, 7]]
}

impl PeriodicAir {
    pub fn width(&self) -> (r: usize)
        ensures
            r == 1,
    {
        1
    }

    pub fn num_public_values(&self) -> (r: usize)
        ensures
            r == 1,
    {
        1
    }

    pub fn num_periodic_columns(&self) -> (r: usize)
        ensures
            r == 1,
    {
        1
    }

    pub fn periodic_columns(&self) -> (r: Vec<Vec<u64>>)
        ensures
            crate::expr::cells(r@) == pattern_cols(),
    {
        let col: Vec<u64> = vec![PERIODIC_PATTERN[0], PERIODIC_PATTERN[1]];
        assert(ints(col@) =~= seq![3int, 7]);
        let r: Vec<Vec<u64>> = vec![col];
        assert(crate::expr::cells(r@) =~= pattern_cols());
        r
    }

    pub fn eval(&self) -> (r: Vec<Constraint>)
        ensures
            forall|env: Env| #[trigger] denote(r@, env) == periodic_polys(env),
    {
        let mut out: Vec<Constraint> = Vec::new();
        start_expr(&mut out, 0);
        emit(&mut out, Gate::Transition, nxt(0).minus(&cur(0)).minus(&per(0)));
        assert forall|env: Env| #[trigger] denote(out@, env) == periodic_polys(env) by {
            assert(denote(out@, env) =~= periodic_polys(env));
        }
        out
    }
}

/// Eight counters side by side.
pub struct WideAir;

/// The width of `WideAir`.
pub const WIDE_W: usize = 8;

pub open spec fn wide_polys(env: Env) -> Seq<(Gate, int)> {
    Seq::new(
        16,
        |k: int|
            if k < 8 {
                (Gate::First, env.cur[k] - env.pis[k])
            } else {
                (Gate::Transition, env.nxt[k - 8] - env.cur[k - 8] - 1)
            },
    )
}

impl WideAir {
    pub fn width(&self) -> (r: usize)
        ensures
            r == WIDE_W,
    {
        WIDE_W
    }

    pub fn num_public_values(&self) -> (r: usize)
        ensures
            r == WIDE_W,
    {
        WIDE_W
    }

    pub fn eval(&self) -> (r: Vec<Constraint>)
        ensures
            forall|env: Env| #[trigger] denote(r@, env) == wide_polys(env),
    {
        let mut out: Vec<Constraint> = Vec::new();
        for i in 0..WIDE_W
            invariant
                forall|env: Env| #[trigger] denote(out@, env) =~= wide_polys(env).take(i as int),
        {
            start_expr(&mut out, i);
        }
        for i in 0..WIDE_W
            invariant
                forall|env: Env| #[trigger] denote(out@, env) =~= wide_polys(env).take(8 + i),
        {
            step_expr(&mut out, i);
        }
        assert forall|env: Env| #[trigger] denote(out@, env) == wide_polys(env) by {
            assert(denote(out@, env) =~= wide_polys(env));
        }
        out
    }
}

/// A counter and its cube.
pub struct CubeAir;

pub open spec fn cube_polys(env: Env) -> Seq<(Gate, int)> {
    let c = env.cur;
    seq![
        (Gate::First, c[0] - env.pis[0]),
        (Gate::Always, c[1] - (c[0] * c[0]) * c[0]),
        (Gate::Transition, env.nxt[0] - c[0] - 1),
    ]
}

impl CubeAir {
    pub fn width(&self) -> (r: usize)
        ensures
            r == 2,
    {
        2
    }

    pub fn num_public_values(&self) -> (r: usize)
        ensures
            r == 1,
    {
        1
    }

    pub fn eval(&self) -> (r: Vec<Constraint>)
        ensures
            forall|env: Env| #[trigger] denote(r@, env) == cube_polys(env),
    {
        let mut out: Vec<Constraint> = Vec::new();
        start_expr(&mut out, 0);
        let a: Expr = cur(0);
        emit(&mut out, Gate::Always, cur(1).minus(&a.times(&a).times(&a)));
        step_expr(&mut out, 0);
        assert forall|env: Env| #[trigger] denote(out@, env) == cube_polys(env) by {
            assert(denote(out@, env) =~= cube_polys(env));
        }
        out
    }
}

/// A counter and its fourth power.
pub struct QuartAir;

pub open spec fn quart_polys(env: Env) -> Seq<(Gate, int)> {
    let c = env.cur;
    seq![
        (Gate::First, c[0] - env.pis[0]),
        (Gate::Always, c[1] - (c[0] * c[0]) * (c[0] * c[0])),
        (Gate::Transition, env.nxt[0] - c[0] - 1),
    ]
}

impl QuartAir {
    pub fn width(&self) -> (r: usize)
        ensures
            r == 2,
    {
        2
    }

    pub fn num_public_values(&self) -> (r: usize)
        ensures
            r == 1,
    {
        1
    }

    pub fn eval(&self) -> (r: Vec<Constraint>)
        ensures
            forall|env: Env| #[trigger] denote(r@, env) == quart_polys(env),
    {
        let mut out: Vec<Constraint> = Vec::new();
        start_expr(&mut out, 0);
        let a2: Expr = cur(0).times(&cur(0));
        emit(&mut out, Gate::Always, cur(1).minus(&a2.times(&a2)));
        step_expr(&mut out, 0);
        assert forall|env: Env| #[trigger] denote(out@, env) == quart_polys(env) by {
            assert(denote(out@, env) =~= quart_polys(env));
        }
        out
    }
}

/// The step constraint says that the next value is the value and a step.
proof fn lemma_step(n: int, c: int, d: int)
    ensures
        red(n - c - d) == 0 <==> cong(n, c + d),
{
    assert(n - c - d == n - (c + d));
    lemma_cong_diff(n, c + d);
}

/// Column `i` starts at `p` and goes up by one.
spec fn ramps(t: Seq<Seq<int>>, i: int, p: int) -> bool {
    &&& cong(t[0][i], p)
    &&& forall|r: int| 0 <= r < t.len() - 1 ==> cong(#[trigger] t[r + 1][i], t[r][i] + 1)
}

proof fn lemma_ramp_at(t: Seq<Seq<int>>, i: int, p: int, r: int)
    requires
        ramps(t, i, p),
        0 <= r < t.len(),
    ensures
        cong(t[r][i], p + r),
    decreases r,
{
    if r > 0 {
        lemma_ramp_at(t, i, p, r - 1);
        assert(cong(t[(r - 1) + 1][i], t[r - 1][i] + 1));
        lemma_cong_add(t[r - 1][i], p + (r - 1), 1, 1);
    }
}

proof fn lemma_ramps(t: Seq<Seq<int>>, i: int, p: int)
    requires
        t.len() > 0,
    ensures
        ramps(t, i, p) <==> forall|r: int| 0 <= r < t.len() ==> cong(#[trigger] t[r][i], p + r),
{
    if ramps(t, i, p) {
        assert forall|r: int| 0 <= r < t.len() implies cong(#[trigger] t[r][i], p + r) by {
            lemma_ramp_at(t, i, p, r);
        }
    }
    if forall|r: int| 0 <= r < t.len() ==> cong(#[trigger] t[r][i], p + r) {
        assert(cong(t[0][i], p + 0));
        assert forall|r: int| 0 <= r < t.len() - 1 implies cong(
            #[trigger] t[r + 1][i],
            t[r][i] + 1,
        ) by {
            assert(cong(t[r][i], p + r));
            assert(cong(t[r + 1][i], p + (r + 1)));
            lemma_cong_add(t[r][i], p + r, 1, 1);
        }
    }
}

/// A trace meets the constant system exactly where every row holds the public value.
pub proof fn law_const(t: Seq<Seq<int>>, pv: Seq<int>)
    requires
        t.len() > 0,
    ensures
        satisfied(|env: Env| const_polys(env), t, Seq::empty(), pv) <==> forall|r: int|
            0 <= r < t.len() ==> cong(#[trigger] t[r][0], pv[0]),
{
    let polys = |env: Env| const_polys(env);
    let h = t.len() as int;
    if satisfied(polys, t, Seq::empty(), pv) {
        assert forall|r: int| 0 <= r < h implies cong(#[trigger] t[r][0], pv[0]) by {
            lemma_const_at(t, pv, r);
        }
    }
    if forall|r: int| 0 <= r < h ==> cong(#[trigger] t[r][0], pv[0]) {
        assert forall|r: int|
            #![trigger row_env(t, Seq::empty(), pv, r)]
            0 <= r < h implies holds(polys(row_env(t, Seq::empty(), pv, r)), r, h) by {
            let env = row_env(t, Seq::empty(), pv, r);
            assert(cong(t[r][0], pv[0]));
            lemma_cong_diff(t[r][0], pv[0]);
            if r < h - 1 {
                assert(cong(t[r + 1][0], pv[0]));
                lemma_cong_diff(t[r + 1][0], t[r][0]);
            }
        }
    }
}

proof fn lemma_const_at(t: Seq<Seq<int>>, pv: Seq<int>, r: int)
    requires
        0 <= r < t.len(),
        satisfied(|env: Env| const_polys(env), t, Seq::empty(), pv),
    ensures
        cong(t[r][0], pv[0]),
    decreases r,
{
    let polys = |env: Env| const_polys(env);
    let h = t.len() as int;
    if r == 0 {
        let env = row_env(t, Seq::empty(), pv, 0);
        assert(holds(polys(env), 0, h));
        assert(polys(env)[0] == start_z(env));
        lemma_cong_diff(t[0][0], pv[0]);
    } else {
        lemma_const_at(t, pv, r - 1);
        let env = row_env(t, Seq::empty(), pv, r - 1);
        assert(holds(polys(env), r - 1, h));
        assert(polys(env)[1] == (Gate::Transition, env.nxt[0] - env.cur[0]));
        lemma_cong_diff(t[r][0], t[r - 1][0]);
    }
}

/// A system of a counter and one constraint on every row: it is met exactly where the first column
/// ramps and the constraint holds everywhere.
proof fn lemma_counter_with(
    polys: spec_fn(Env) -> Seq<(Gate, int)>,
    rest: spec_fn(Env) -> int,
    t: Seq<Seq<int>>,
    pv: Seq<int>,
)
    requires
        t.len() > 0,
        forall|env: Env|
            #[trigger] polys(env) == seq![
                start_z(env),
                (Gate::Always, rest(env)),
                step_z(env, 0),
            ],
    ensures
        satisfied(polys, t, Seq::empty(), pv) <==> {
            &&& ramps(t, 0, pv[0])
            &&& forall|r: int|
                0 <= r < t.len() ==> red(rest(#[trigger] row_env(t, Seq::empty(), pv, r))) == 0
        },
{
    let h = t.len() as int;
    assert forall|r: int| 0 <= r < h implies ({
        let env = #[trigger] row_env(t, Seq::empty(), pv, r);
        holds(polys(env), r, h) <==> {
            &&& r == 0 ==> cong(t[0][0], pv[0])
            &&& red(rest(env)) == 0
            &&& r < h - 1 ==> cong(t[r + 1][0], t[r][0] + 1)
        }
    }) by {
        let env = row_env(t, Seq::empty(), pv, r);
        let p = polys(env);
        assert(p[0] == start_z(env) && p[1] == (Gate::Always, rest(env)) && p[2] == step_z(env, 0));
        lemma_cong_diff(t[0][0], pv[0]);
        if r < h - 1 {
            lemma_step(t[r + 1][0], t[r][0], 1);
        }
    }
    if satisfied(polys, t, Seq::empty(), pv) {
        assert(holds(polys(row_env(t, Seq::empty(), pv, 0)), 0, h));
        assert forall|r: int| 0 <= r < h - 1 implies cong(#[trigger] t[r + 1][0], t[r][0] + 1) by {
            assert(holds(polys(row_env(t, Seq::empty(), pv, r)), r, h));
        }
        assert forall|r: int| 0 <= r < h implies red(
            rest(#[trigger] row_env(t, Seq::empty(), pv, r)),
        ) == 0 by {
            assert(holds(polys(row_env(t, Seq::empty(), pv, r)), r, h));
        }
    }
    if ramps(t, 0, pv[0]) && (forall|r: int|
        0 <= r < t.len() ==> red(rest(#[trigger] row_env(t, Seq::empty(), pv, r))) == 0) {
        assert forall|r: int|
            #![trigger row_env(t, Seq::empty(), pv, r)]
            0 <= r < h implies holds(polys(row_env(t, Seq::empty(), pv, r)), r, h) by {
            if r < h - 1 {
                assert(cong(t[r + 1][0], t[r][0] + 1));
            }
        }
    }
}

/// A trace meets the cube system exactly where its first column counts up from the public value and its
/// second holds the cubes.
pub proof fn law_cube(t: Seq<Seq<int>>, pv: Seq<int>)
    requires
        t.len() > 0,
    ensures
        satisfied(|env: Env| cube_polys(env), t, Seq::empty(), pv) <==> forall|r: int|
            #![trigger t[r]]
            0 <= r < t.len() ==> cong(t[r][0], pv[0] + r) && cong(
                t[r][1],
                ((pv[0] + r) * (pv[0] + r)) * (pv[0] + r),
            ),
{
    let polys = |env: Env| cube_polys(env);
    let rest = |env: Env| env.cur[1] - (env.cur[0] * env.cur[0]) * env.cur[0];
    assert forall|env: Env| #[trigger] polys(env) == seq![
        start_z(env),
        (Gate::Always, rest(env)),
        step_z(env, 0),
    ] by {
        assert(polys(env) =~= seq![start_z(env), (Gate::Always, rest(env)), step_z(env, 0)]);
    }
    lemma_counter_with(polys, rest, t, pv);
    lemma_ramps(t, 0, pv[0]);
    assert forall|r: int| 0 <= r < t.len() && cong(t[r][0], pv[0] + r) implies (red(
        rest(#[trigger] row_env(t, Seq::empty(), pv, r)),
    ) == 0 <==> cong(t[r][1], ((pv[0] + r) * (pv[0] + r)) * (pv[0] + r))) by {
        let (a, b) = (t[r][0], pv[0] + r);
        lemma_cong_mul(a, b, a, b);
        lemma_cong_mul(a * a, b * b, a, b);
        lemma_cong_diff(t[r][1], (a * a) * a);
    }
    if satisfied(polys, t, Seq::empty(), pv) {
        assert forall|r: int|
            #![trigger t[r]]
            0 <= r < t.len() implies cong(t[r][0], pv[0] + r) && cong(
            t[r][1],
            ((pv[0] + r) * (pv[0] + r)) * (pv[0] + r),
        ) by {
            assert(cong(t[r][0], pv[0] + r));
            assert(red(rest(row_env(t, Seq::empty(), pv, r))) == 0);
        }
    }
}

/// A trace meets the fourth-power system exactly where its first column counts up from the public value
/// and its second holds the fourth powers.
pub proof fn law_quart(t: Seq<Seq<int>>, pv: Seq<int>)
    requires
        t.len() > 0,
    ensures
        satisfied(|env: Env| quart_polys(env), t, Seq::empty(), pv) <==> forall|r: int|
            #![trigger t[r]]
            0 <= r < t.len() ==> cong(t[r][0], pv[0] + r) && cong(
                t[r][1],
                ((pv[0] + r) * (pv[0] + r)) * ((pv[0] + r) * (pv[0] + r)),
            ),
{
    let polys = |env: Env| quart_polys(env);
    let rest = |env: Env|
        env.cur[1] - (env.cur[0] * env.cur[0]) * (env.cur[0] * env.cur[0]);
    assert forall|env: Env| #[trigger] polys(env) == seq![
        start_z(env),
        (Gate::Always, rest(env)),
        step_z(env, 0),
    ] by {
        assert(polys(env) =~= seq![start_z(env), (Gate::Always, rest(env)), step_z(env, 0)]);
    }
    lemma_counter_with(polys, rest, t, pv);
    lemma_ramps(t, 0, pv[0]);
    assert forall|r: int| 0 <= r < t.len() && cong(t[r][0], pv[0] + r) implies (red(
        rest(#[trigger] row_env(t, Seq::empty(), pv, r)),
    ) == 0 <==> cong(t[r][1], ((pv[0] + r) * (pv[0] + r)) * ((pv[0] + r) * (pv[0] + r)))) by {
        let (a, b) = (t[r][0], pv[0] + r);
        lemma_cong_mul(a, b, a, b);
        lemma_cong_mul(a * a, b * b, a * a, b * b);
        lemma_cong_diff(t[r][1], (a * a) * (a * a));
    }
    if satisfied(polys, t, Seq::empty(), pv) {
        assert forall|r: int|
            #![trigger t[r]]
            0 <= r < t.len() implies cong(t[r][0], pv[0] + r) && cong(
            t[r][1],
            ((pv[0] + r) * (pv[0] + r)) * ((pv[0] + r) * (pv[0] + r)),
        ) by {
            assert(cong(t[r][0], pv[0] + r));
            assert(red(rest(row_env(t, Seq::empty(), pv, r))) == 0);
        }
    }
}

/// A trace meets the counter system exactly where its column counts up from the public value.
pub proof fn law_counter(t: Seq<Seq<int>>, pv: Seq<int>)
    requires
        t.len() > 0,
    ensures
        satisfied(|env: Env| counter_polys(env), t, Seq::empty(), pv) <==> forall|r: int|
            0 <= r < t.len() ==> cong(#[trigger] t[r][0], pv[0] + r),
{
    let polys = |env: Env| counter_polys(env);
    let h = t.len() as int;
    lemma_ramps(t, 0, pv[0]);
    assert forall|r: int| 0 <= r < h implies ({
        let env = #[trigger] row_env(t, Seq::empty(), pv, r);
        holds(polys(env), r, h) <==> {
            &&& r == 0 ==> cong(t[0][0], pv[0])
            &&& r < h - 1 ==> cong(t[r + 1][0], t[r][0] + 1)
        }
    }) by {
        let env = row_env(t, Seq::empty(), pv, r);
        let p = polys(env);
        assert(p[0] == start_z(env) && p[1] == step_z(env, 0));
        lemma_cong_diff(t[0][0], pv[0]);
        if r < h - 1 {
            lemma_step(t[r + 1][0], t[r][0], 1);
        }
    }
    if satisfied(polys, t, Seq::empty(), pv) {
        assert(holds(polys(row_env(t, Seq::empty(), pv, 0)), 0, h));
        assert forall|r: int| 0 <= r < h - 1 implies cong(#[trigger] t[r + 1][0], t[r][0] + 1) by {
            assert(holds(polys(row_env(t, Seq::empty(), pv, r)), r, h));
        }
    }
    if ramps(t, 0, pv[0]) {
        assert forall|r: int|
            #![trigger row_env(t, Seq::empty(), pv, r)]
            0 <= r < h implies holds(polys(row_env(t, Seq::empty(), pv, r)), r, h) by {
            if r < h - 1 {
                assert(cong(t[r + 1][0], t[r][0] + 1));
            }
        }
    }
}

/// A trace meets the system of eight counters exactly where every column counts up from its public
/// value.
pub proof fn law_wide(t: Seq<Seq<int>>, pv: Seq<int>)
    requires
        t.len() > 0,
    ensures
        satisfied(|env: Env| wide_polys(env), t, Seq::empty(), pv) <==> forall|r: int, i: int|
            0 <= r < t.len() && 0 <= i < 8 ==> cong(#[trigger] t[r][i], pv[i] + r),
{
    let polys = |env: Env| wide_polys(env);
    let h = t.len() as int;
    if satisfied(polys, t, Seq::empty(), pv) {
        assert forall|i: int| 0 <= i < 8 implies #[trigger] ramps(t, i, pv[i]) by {
            let env = row_env(t, Seq::empty(), pv, 0);
            assert(holds(polys(env), 0, h));
            assert(polys(env)[i] == (Gate::First, env.cur[i] - env.pis[i]));
            lemma_cong_diff(t[0][i], pv[i]);
            assert forall|r: int| 0 <= r < h - 1 implies cong(
                #[trigger] t[r + 1][i],
                t[r][i] + 1,
            ) by {
                let e = row_env(t, Seq::empty(), pv, r);
                assert(holds(polys(e), r, h));
                assert(polys(e)[8 + i] == step_z(e, i));
                lemma_step(t[r + 1][i], t[r][i], 1);
            }
        }
        assert forall|r: int, i: int| 0 <= r < h && 0 <= i < 8 implies cong(
            #[trigger] t[r][i],
            pv[i] + r,
        ) by {
            lemma_ramp_at(t, i, pv[i], r);
        }
    }
    if forall|r: int, i: int|
        0 <= r < t.len() && 0 <= i < 8 ==> cong(#[trigger] t[r][i], pv[i] + r) {
        assert forall|r: int|
            #![trigger row_env(t, Seq::empty(), pv, r)]
            0 <= r < h implies holds(polys(row_env(t, Seq::empty(), pv, r)), r, h) by {
            let env = row_env(t, Seq::empty(), pv, r);
            let p = polys(env);
            assert forall|k: int|
                #![trigger p[k]]
                0 <= k < p.len() && active(p[k].0, r, h) implies red(p[k].1) == 0 by {
                if k < 8 {
                    assert(cong(t[r][k], pv[k] + r));
                    lemma_cong_diff(t[r][k], pv[k]);
                } else {
                    let i = k - 8;
                    assert(cong(t[r][i], pv[i] + r));
                    assert(cong(t[r + 1][i], pv[i] + (r + 1)));
                    lemma_cong_add(t[r][i], pv[i] + r, 1, 1);
                    lemma_step(t[r + 1][i], t[r][i], 1);
                }
            }
        }
    }
}

/// The sum of the pattern up to row `r`.
pub open spec fn pattern_sum(r: int) -> int {
    10 * (r / 2) + (if r % 2 == 1 {
        3int
    } else {
        0int
    })
}

proof fn lemma_periodic_row(t: Seq<Seq<int>>, pv: Seq<int>, r: int)
    requires
        0 <= r < t.len(),
    ensures
        holds(periodic_polys(row_env(t, pattern_cols(), pv, r)), r, t.len() as int) <==> {
            &&& r == 0 ==> cong(t[0][0], pv[0])
            &&& r < t.len() - 1 ==> cong(
                t[r + 1][0],
                t[r][0] + (pattern_sum(r + 1) - pattern_sum(r)),
            )
        },
{
    let env = row_env(t, pattern_cols(), pv, r);
    let p = periodic_polys(env);
    assert(p[0] == start_z(env));
    assert(p[1] == (Gate::Transition, env.nxt[0] - env.cur[0] - env.per[0]));
    assert(pattern_cols()[0].len() == 2);
    assert(env.per[0] == pattern_cols()[0][r % 2]);
    assert(env.per[0] == pattern_sum(r + 1) - pattern_sum(r)) by {
        if r % 2 == 0 {
            assert((r + 1) / 2 == r / 2);
        } else {
            assert((r + 1) / 2 == r / 2 + 1);
        }
    }
    lemma_cong_diff(t[0][0], pv[0]);
    if r < t.len() - 1 {
        lemma_step(t[r + 1][0], t[r][0], env.per[0]);
    }
}

proof fn lemma_periodic_at(t: Seq<Seq<int>>, pv: Seq<int>, r: int)
    requires
        satisfied(|env: Env| periodic_polys(env), t, pattern_cols(), pv),
        0 <= r < t.len(),
    ensures
        cong(t[r][0], pv[0] + pattern_sum(r)),
    decreases r,
{
    let polys = |env: Env| periodic_polys(env);
    let h = t.len() as int;
    if r == 0 {
        assert(holds(polys(row_env(t, pattern_cols(), pv, 0)), 0, h));
        lemma_periodic_row(t, pv, 0);
    } else {
        lemma_periodic_at(t, pv, r - 1);
        assert(holds(polys(row_env(t, pattern_cols(), pv, r - 1)), r - 1, h));
        lemma_periodic_row(t, pv, r - 1);
        let d = pattern_sum(r) - pattern_sum(r - 1);
        lemma_cong_add(t[r - 1][0], pv[0] + pattern_sum(r - 1), d, d);
    }
}

/// A trace meets the periodic system exactly where its column holds the public value and the sum of the
/// pattern so far.
pub proof fn law_periodic(t: Seq<Seq<int>>, pv: Seq<int>)
    requires
        t.len() > 0,
    ensures
        satisfied(|env: Env| periodic_polys(env), t, pattern_cols(), pv) <==> forall|r: int|
            0 <= r < t.len() ==> cong(#[trigger] t[r][0], pv[0] + pattern_sum(r)),
{
    let polys = |env: Env| periodic_polys(env);
    let h = t.len() as int;
    if satisfied(polys, t, pattern_cols(), pv) {
        assert forall|r: int| 0 <= r < h implies cong(#[trigger] t[r][0], pv[0] + pattern_sum(r)) by {
            lemma_periodic_at(t, pv, r);
        }
    }
    if forall|r: int| 0 <= r < t.len() ==> cong(#[trigger] t[r][0], pv[0] + pattern_sum(r)) {
        assert forall|r: int|
            #![trigger row_env(t, pattern_cols(), pv, r)]
            0 <= r < h implies holds(polys(row_env(t, pattern_cols(), pv, r)), r, h) by {
            lemma_periodic_row(t, pv, r);
            assert(cong(t[r][0], pv[0] + pattern_sum(r)));
            if r < h - 1 {
                assert(cong(t[r + 1][0], pv[0] + pattern_sum(r + 1)));
                let d = pattern_sum(r + 1) - pattern_sum(r);
                lemma_cong_add(t[r][0], pv[0] + pattern_sum(r), d, d);
            }
        }
    }
}

/// The state of the recurrence after `r` steps.
pub open spec fn fib_at(a: int, b: int, r: nat) -> (int, int)
    decreases r,
{
    if r == 0 {
        (a, b)
    } else {
        let (x, y) = fib_at(a, b, (r - 1) as nat);
        (y, x + y)
    }
}

proof fn lemma_fib_row(t: Seq<Seq<int>>, pv: Seq<int>, r: int)
    requires
        0 <= r < t.len(),
    ensures
        holds(fibonacci_polys(row_env(t, Seq::empty(), pv, r)), r, t.len() as int) <==> {
            &&& r == 0 ==> cong(t[0][0], pv[0]) && cong(t[0][1], pv[1])
            &&& r < t.len() - 1 ==> cong(t[r + 1][0], t[r][1]) && cong(
                t[r + 1][1],
                t[r][0] + t[r][1],
            )
            &&& r == t.len() - 1 ==> cong(t[r][1], pv[2])
        },
{
    let env = row_env(t, Seq::empty(), pv, r);
    let p = fibonacci_polys(env);
    let c = env.cur;
    let n = env.nxt;
    assert(p[0] == (Gate::First, c[0] - pv[0]) && p[1] == (Gate::First, c[1] - pv[1]));
    assert(p[2] == (Gate::Transition, n[0] - c[1]) && p[3] == (
        Gate::Transition,
        n[1] - c[0] - c[1],
    ));
    assert(p[4] == (Gate::Last, c[1] - pv[2]));
    lemma_cong_diff(t[0][0], pv[0]);
    lemma_cong_diff(t[0][1], pv[1]);
    lemma_cong_diff(t[r][1], pv[2]);
    if r < t.len() - 1 {
        lemma_cong_diff(t[r + 1][0], t[r][1]);
        lemma_step(t[r + 1][1], t[r][0], t[r][1]);
    }
}

proof fn lemma_fib_at(t: Seq<Seq<int>>, pv: Seq<int>, r: int)
    requires
        satisfied(|env: Env| fibonacci_polys(env), t, Seq::empty(), pv),
        0 <= r < t.len(),
    ensures
        cong(t[r][0], fib_at(pv[0], pv[1], r as nat).0),
        cong(t[r][1], fib_at(pv[0], pv[1], r as nat).1),
    decreases r,
{
    let polys = |env: Env| fibonacci_polys(env);
    let h = t.len() as int;
    if r == 0 {
        assert(holds(polys(row_env(t, Seq::empty(), pv, 0)), 0, h));
        lemma_fib_row(t, pv, 0);
    } else {
        lemma_fib_at(t, pv, r - 1);
        assert(holds(polys(row_env(t, Seq::empty(), pv, r - 1)), r - 1, h));
        lemma_fib_row(t, pv, r - 1);
        let (x, y) = fib_at(pv[0], pv[1], (r - 1) as nat);
        lemma_cong_add(t[r - 1][0], x, t[r - 1][1], y);
    }
}

/// A trace meets the Fibonacci system exactly where its rows are the states of the recurrence from the
/// first two public values, and the last of them ends in the third.
pub proof fn law_fibonacci(t: Seq<Seq<int>>, pv: Seq<int>)
    requires
        t.len() > 0,
    ensures
        satisfied(|env: Env| fibonacci_polys(env), t, Seq::empty(), pv) <==> {
            &&& forall|r: int|
                #![trigger t[r]]
                0 <= r < t.len() ==> cong(t[r][0], fib_at(pv[0], pv[1], r as nat).0) && cong(
                    t[r][1],
                    fib_at(pv[0], pv[1], r as nat).1,
                )
            &&& cong(fib_at(pv[0], pv[1], (t.len() - 1) as nat).1, pv[2])
        },
{
    let polys = |env: Env| fibonacci_polys(env);
    let h = t.len() as int;
    if satisfied(polys, t, Seq::empty(), pv) {
        assert forall|r: int|
            #![trigger t[r]]
            0 <= r < h implies cong(t[r][0], fib_at(pv[0], pv[1], r as nat).0) && cong(
            t[r][1],
            fib_at(pv[0], pv[1], r as nat).1,
        ) by {
            lemma_fib_at(t, pv, r);
        }
        assert(holds(polys(row_env(t, Seq::empty(), pv, h - 1)), h - 1, h));
        lemma_fib_row(t, pv, h - 1);
        lemma_fib_at(t, pv, h - 1);
    }
    if (forall|r: int|
        #![trigger t[r]]
        0 <= r < t.len() ==> cong(t[r][0], fib_at(pv[0], pv[1], r as nat).0) && cong(
            t[r][1],
            fib_at(pv[0], pv[1], r as nat).1,
        )) && cong(fib_at(pv[0], pv[1], (t.len() - 1) as nat).1, pv[2]) {
        assert forall|r: int|
            #![trigger row_env(t, Seq::empty(), pv, r)]
            0 <= r < h implies holds(polys(row_env(t, Seq::empty(), pv, r)), r, h) by {
            lemma_fib_row(t, pv, r);
            let (x, y) = fib_at(pv[0], pv[1], r as nat);
            assert(cong(t[r][0], x) && cong(t[r][1], y));
            if r < h - 1 {
                assert(cong(t[r + 1][0], fib_at(pv[0], pv[1], (r + 1) as nat).0));
                lemma_cong_add(t[r][0], x, t[r][1], y);
            }
        }
    }
}

proof fn lemma_mul_row(t: Seq<Seq<int>>, pv: Seq<int>, r: int)
    requires
        0 <= r < t.len(),
    ensures
        holds(mul_polys(row_env(t, Seq::empty(), pv, r)), r, t.len() as int) <==> {
            &&& r == 0 ==> cong(t[0][0], pv[0]) && cong(t[0][1], pv[1])
            &&& cong(t[r][2], t[r][0] * t[r][1])
            &&& r < t.len() - 1 ==> cong(t[r + 1][0], t[r][0] + 1) && cong(
                t[r + 1][1],
                t[r][1] + 1,
            )
        },
{
    let env = row_env(t, Seq::empty(), pv, r);
    let p = mul_polys(env);
    let c = env.cur;
    assert(p[0] == (Gate::First, c[0] - pv[0]) && p[1] == (Gate::First, c[1] - pv[1]));
    assert(p[2] == (Gate::Always, c[2] - c[0] * c[1]));
    assert(p[3] == step_z(env, 0) && p[4] == step_z(env, 1));
    lemma_cong_diff(t[0][0], pv[0]);
    lemma_cong_diff(t[0][1], pv[1]);
    lemma_cong_diff(t[r][2], t[r][0] * t[r][1]);
    if r < t.len() - 1 {
        lemma_step(t[r + 1][0], t[r][0], 1);
        lemma_step(t[r + 1][1], t[r][1], 1);
    }
}

/// A trace meets the product system exactly where its first two columns count up from the public values
/// and its third holds their products.
pub proof fn law_mul(t: Seq<Seq<int>>, pv: Seq<int>)
    requires
        t.len() > 0,
    ensures
        satisfied(|env: Env| mul_polys(env), t, Seq::empty(), pv) <==> forall|r: int|
            #![trigger t[r]]
            0 <= r < t.len() ==> cong(t[r][0], pv[0] + r) && cong(t[r][1], pv[1] + r) && cong(
                t[r][2],
                (pv[0] + r) * (pv[1] + r),
            ),
{
    let polys = |env: Env| mul_polys(env);
    let h = t.len() as int;
    if satisfied(polys, t, Seq::empty(), pv) {
        assert(holds(polys(row_env(t, Seq::empty(), pv, 0)), 0, h));
        lemma_mul_row(t, pv, 0);
        assert forall|r: int| 0 <= r < h - 1 implies cong(#[trigger] t[r + 1][0], t[r][0] + 1)
            && cong(t[r + 1][1], t[r][1] + 1) by {
            assert(holds(polys(row_env(t, Seq::empty(), pv, r)), r, h));
            lemma_mul_row(t, pv, r);
        }
        assert(ramps(t, 0, pv[0]));
        assert forall|r: int| 0 <= r < h - 1 implies cong(#[trigger] t[r + 1][1], t[r][1] + 1) by {
            assert(cong(t[r + 1][0], t[r][0] + 1));
        }
        assert(ramps(t, 1, pv[1]));
        assert forall|r: int|
            #![trigger t[r]]
            0 <= r < h implies cong(t[r][0], pv[0] + r) && cong(t[r][1], pv[1] + r) && cong(
            t[r][2],
            (pv[0] + r) * (pv[1] + r),
        ) by {
            lemma_ramp_at(t, 0, pv[0], r);
            lemma_ramp_at(t, 1, pv[1], r);
            assert(holds(polys(row_env(t, Seq::empty(), pv, r)), r, h));
            lemma_mul_row(t, pv, r);
            lemma_cong_mul(t[r][0], pv[0] + r, t[r][1], pv[1] + r);
        }
    }
    if forall|r: int|
        #![trigger t[r]]
        0 <= r < t.len() ==> cong(t[r][0], pv[0] + r) && cong(t[r][1], pv[1] + r) && cong(
            t[r][2],
            (pv[0] + r) * (pv[1] + r),
        ) {
        assert forall|r: int|
            #![trigger row_env(t, Seq::empty(), pv, r)]
            0 <= r < h implies holds(polys(row_env(t, Seq::empty(), pv, r)), r, h) by {
            lemma_mul_row(t, pv, r);
            assert(cong(t[r][0], pv[0] + r) && cong(t[r][1], pv[1] + r));
            lemma_cong_mul(t[r][0], pv[0] + r, t[r][1], pv[1] + r);
            if r < h - 1 {
                assert(cong(t[r + 1][0], pv[0] + (r + 1)));
                lemma_cong_add(t[r][0], pv[0] + r, 1, 1);
                lemma_cong_add(t[r][1], pv[1] + r, 1, 1);
            }
        }
    }
}

} // verus!
