//! The fold chain of a query, and tiles that chain its evaluation point, its reduced opening and its
//! fold chain, alone and one after the other.
use super::cells::{
    chain_cells, chain_fold_rows, fold_one, head_cells, head_row, inv_at, off_points, point_z,
    power_z, query_is_ok, query_ok, rounds_ok, running, term_cells, terms_cells, FoldRound, Query,
    Term,
};
use super::parts::{strided, term_at, term_cols, terms_limit, DP_LOG_HEIGHT};
use super::query::{
    lemma_inv_at, opening_of, repeat_row, repeated, row_opening, term_pxs, term_pzs, term_zs, ROWS,
};
use crate::bits::bit_of;
use crate::cols::{lemma_np2, next_power_of_two, np2};
use crate::expr::{
    cells, cst, cur, denote, emit, emit_all, Constraint, Env, Expr, ExtExpr, gated, Gate, holds,
    lemma_holds_concat, lemma_holds_gated, lemma_holds_push, pair, pis, row_env, satisfied, Trace,
    vals, vanish,
};
use crate::field::{
    econg, ered, is_einverse, lemma_cong_diff, lemma_ered, lemma_finv, lemma_red_red, red,
    Challenge, GENERATOR, HALF,
};
use crate::gadget_laws::{
    col_pxs, col_pzs, col_zs, fold_group, law_deep_point, law_fold_step, law_reduced_opening,
    lemma_deep_complete, lemma_fold_complete, lemma_fold_group_cong, lemma_fold_idle,
    lemma_opening_complete, number,
};
use crate::gadgets::{
    apow_exprs, apow_polys, bit_exprs, bits_z, deep_exprs, deep_polys, fold_exprs, fold_polys,
    inv_exprs, inv_polys, ro_expr, ro_z, TermAt, F_E,
};
use vstd::prelude::*;

verus! {

/// The pair of cells at column 0 against the public values at `at`.
pub open spec fn eval_polys(env: Env, at: int) -> Seq<int> {
    seq![env.cur[0] - env.pis[at], env.cur[1] - env.pis[at + 1]]
}

fn eval_exprs(at: usize) -> (r: Vec<Expr>)
    requires
        at < usize::MAX,
    ensures
        r.len() == 2,
        forall|env: Env| #[trigger] vals(r@, env) == eval_polys(env, at as int),
{
    let r: Vec<Expr> = vec![cur(F_E).minus(&pis(at)), cur(F_E + 1).minus(&pis(at + 1))];
    proof {
        assert forall|env: Env| #[trigger] vals(r@, env) == eval_polys(env, at as int) by {
            assert(vals(r@, env) =~= eval_polys(env, at as int));
        }
    }
    r
}

// The fold chain.

pub const QF_WIDTH: usize = 9;

/// A fold chain, one round per row. The public values are the evaluation that it starts from and
/// the one that it ends in.
pub struct QueryFoldAir;

pub open spec fn qf_polys(env: Env) -> Seq<(Gate, int)> {
    gated(Gate::First, eval_polys(env, 0)) + gated(Gate::Transition, fold_polys(env.cur, env.nxt))
        + gated(Gate::Last, eval_polys(env, 2))
}

impl QueryFoldAir {
    pub fn width(&self) -> (r: usize)
        ensures
            r == QF_WIDTH,
    {
        QF_WIDTH
    }

    pub fn num_public_values(&self) -> (r: usize)
        ensures
            r == 4,
    {
        4
    }

    pub fn eval(&self) -> (r: Vec<Constraint>)
        ensures
            forall|env: Env| #[trigger] denote(r@, env) == qf_polys(env),
    {
        let mut out: Vec<Constraint> = Vec::new();
        emit_all(&mut out, Gate::First, &eval_exprs(0));
        emit_all(&mut out, Gate::Transition, &fold_exprs());
        emit_all(&mut out, Gate::Last, &eval_exprs(2));
        proof {
            assert forall|env: Env| #[trigger] denote(out@, env) == qf_polys(env) by {
                assert(denote(out@, env) =~= qf_polys(env));
            }
        }
        out
    }
}

/// The height of a chain of `n` rounds: a row for each evaluation, a power of two, at least two.
pub open spec fn chain_height(n: int) -> int {
    if np2(n + 1) < 2 {
        2
    } else {
        np2(n + 1)
    }
}

pub open spec fn qf_trace(ro: (int, int), rounds: Seq<FoldRound>) -> Seq<Seq<int>> {
    Seq::new(chain_height(rounds.len() as int) as nat, |r: int| chain_cells(ro, rounds, r))
}

pub fn height_of_chain(n: usize) -> (r: usize)
    requires
        np2(n + 1) <= usize::MAX,
    ensures
        r == chain_height(n as int),
{
    proof {
        lemma_np2(n + 1);
    }
    let h: usize = next_power_of_two(n + 1);
    if h < 2 {
        2
    } else {
        h
    }
}

/// Fills the trace of a fold chain.
pub fn qf_build_trace(ro: Challenge, rounds: &Vec<FoldRound>) -> (t: Trace)
    requires
        np2(rounds.len() + 1) <= usize::MAX,
        rounds_ok(rounds@),
    ensures
        cells(t@) == qf_trace(ro@, rounds@),
{
    let h: usize = height_of_chain(rounds.len());
    let t: Trace = chain_fold_rows(ro, rounds, h);
    assert(cells(t@) =~= qf_trace(ro@, rounds@));
    t
}

/// What `start` folds to along `k` rows of a trace from row `base` on.
pub open spec fn fold_along(start: (int, int), t: Seq<Seq<int>>, base: int, k: nat) -> (int, int)
    decreases k,
{
    if k == 0 {
        start
    } else {
        let row = t[base + k - 1];
        fold_group(
            fold_along(start, t, base, (k - 1) as nat),
            pair(row, 2),
            pair(row, 4),
            red(row[6]),
            row[7],
        )
    }
}

/// Rows whose fold steps hold carry the running evaluation.
pub proof fn lemma_fold_along(t: Seq<Seq<int>>, start: (int, int), base: int, k: nat)
    requires
        econg(start, pair(t[base], 0)),
        forall|j: int|
            #![trigger t[base + j]]
            0 <= j < k ==> vanish(fold_polys(t[base + j], t[base + j + 1])),
    ensures
        econg(fold_along(start, t, base, k), pair(t[base + k], 0)),
    decreases k,
{
    if k > 0 {
        let j = (k - 1) as nat;
        lemma_fold_along(t, start, base, j);
        let c = t[base + j];
        assert(t[base + k - 1] == c);
        assert(vanish(fold_polys(t[base + j], t[base + j + 1])));
        law_fold_step(c, t[base + k]);
        let e = fold_along(start, t, base, j);
        lemma_fold_group_cong(e, pair(c, 0), pair(c, 2), pair(c, 4), red(c[6]), c[7]);
        let f = fold_along(start, t, base, k);
        lemma_ered(pair(t[base + k], 0));
    }
}

proof fn lemma_qf_holds(env: Env, r: int, h: int)
    ensures
        holds(qf_polys(env), r, h) <==> {
            &&& r == 0 ==> vanish(eval_polys(env, 0))
            &&& r != h - 1 ==> vanish(fold_polys(env.cur, env.nxt))
            &&& r == h - 1 ==> vanish(eval_polys(env, 2))
        },
{
    let (a, b, c) = (eval_polys(env, 0), fold_polys(env.cur, env.nxt), eval_polys(env, 2));
    lemma_holds_gated(Gate::First, a, r, h);
    lemma_holds_gated(Gate::Transition, b, r, h);
    lemma_holds_gated(Gate::Last, c, r, h);
    lemma_holds_concat(gated(Gate::First, a), gated(Gate::Transition, b), r, h);
    lemma_holds_concat(
        gated(Gate::First, a) + gated(Gate::Transition, b),
        gated(Gate::Last, c),
        r,
        h,
    );
}

pub proof fn lemma_eval_polys(env: Env, at: int)
    ensures
        vanish(eval_polys(env, at)) <==> econg(pair(env.cur, 0), pair(env.pis, at)),
{
    let p = eval_polys(env, at);
    lemma_cong_diff(env.cur[0], env.pis[at]);
    lemma_cong_diff(env.cur[1], env.pis[at + 1]);
    if vanish(p) {
        assert(red(p[0]) == 0 && red(p[1]) == 0);
    }
}

/// Whatever trace meets the constraints, its public start folds to its public end along its rows.
pub proof fn law_query_fold_sound(t: Seq<Seq<int>>, pv: Seq<int>)
    requires
        t.len() >= 2,
        satisfied(|env: Env| qf_polys(env), t, Seq::empty(), pv),
    ensures
        econg(pair(pv, 2), fold_along(pair(pv, 0), t, 0, (t.len() - 1) as nat)),
{
    let polys = |env: Env| qf_polys(env);
    let h = t.len() as int;
    let env = row_env(t, Seq::empty(), pv, 0);
    assert(holds(polys(env), 0, h));
    lemma_qf_holds(env, 0, h);
    lemma_eval_polys(env, 0);
    assert forall|j: int|
        #![trigger t[0 + j]]
        0 <= j < h - 1 implies vanish(fold_polys(t[0 + j], t[0 + j + 1])) by {
        let e = row_env(t, Seq::empty(), pv, j);
        assert(holds(polys(e), j, h));
        lemma_qf_holds(e, j, h);
    }
    lemma_fold_along(t, pair(pv, 0), 0, (h - 1) as nat);
    let last = row_env(t, Seq::empty(), pv, h - 1);
    assert(holds(polys(last), h - 1, h));
    lemma_qf_holds(last, h - 1, h);
    lemma_eval_polys(last, 2);
}

/// The rows of a fold chain that is laid out meet its fold steps.
pub proof fn lemma_chain_complete(ro: (int, int), rounds: Seq<FoldRound>, r: int, c: Seq<int>, n: Seq<int>)
    requires
        0 <= r,
        rounds_ok(rounds),
        forall|i: int| 0 <= i < 9 ==> #[trigger] c[i] == chain_cells(ro, rounds, r)[i],
        forall|i: int| 0 <= i < 9 ==> #[trigger] n[i] == chain_cells(ro, rounds, r + 1)[i],
    ensures
        vanish(fold_polys(c, n)),
{
    let e = running(ro, rounds, r as nat);
    let f = running(ro, rounds, (r + 1) as nat);
    assert(pair(n, 0) == f && pair(c, 0) == e);
    if r < rounds.len() {
        let rd = rounds[r];
        assert(red(2 * rd.s) != 0);
        let i = crate::prime::law_inverse_exists(2 * rd.s);
        lemma_finv(2 * rd.s, i);
        let bit = c[6];
        assert(pair(c, 2) == rd.sib@ && pair(c, 4) == rd.beta@ && c[7] == rd.s && c[8] == i);
        assert(f == fold_one(e, rd));
        assert(f == fold_group(e, rd.sib@, rd.beta@, bit, rd.s as int));
        lemma_fold_complete(c, n);
    } else {
        assert(f == e);
        assert(pair(c, 2) == e && pair(c, 4) == (0int, 0int) && c[6] == 0 && c[7] == 1 && c[8]
            == HALF);
        lemma_fold_idle(e, 1);
        assert(red(2 * (HALF as int)) == 1);
        lemma_fold_complete(c, n);
    }
}

pub proof fn lemma_running_end(ro: (int, int), rounds: Seq<FoldRound>, k: nat)
    requires
        k >= rounds.len(),
    ensures
        running(ro, rounds, k) == running(ro, rounds, rounds.len()),
    decreases k,
{
    if k > rounds.len() {
        lemma_running_end(ro, rounds, (k - 1) as nat);
    }
}

/// The trace of a fold chain meets the constraints exactly for the evaluations that it starts from
/// and ends in.
pub proof fn law_query_fold_complete(ro: (int, int), rounds: Seq<FoldRound>, pv: Seq<int>)
    requires
        rounds_ok(rounds),
    ensures
        satisfied(|env: Env| qf_polys(env), qf_trace(ro, rounds), Seq::empty(), pv) <==> econg(
            pair(pv, 0),
            ro,
        ) && econg(pair(pv, 2), running(ro, rounds, rounds.len())),
{
    let t = qf_trace(ro, rounds);
    let polys = |env: Env| qf_polys(env);
    let h = t.len() as int;
    lemma_np2(rounds.len() as int + 1);
    lemma_running_end(ro, rounds, (h - 1) as nat);
    assert(pair(t[0], 0) == ro) by {
        assert(running(ro, rounds, 0) == ro);
    }
    assert(pair(t[h - 1], 0) == running(ro, rounds, rounds.len()));
    assert forall|r: int|
        #![trigger row_env(t, Seq::empty(), pv, r)]
        0 <= r < h implies (holds(polys(row_env(t, Seq::empty(), pv, r)), r, h) <==> (r == 0
        ==> econg(pair(pv, 0), ro)) && (r == h - 1 ==> econg(
        pair(pv, 2),
        running(ro, rounds, rounds.len()),
    ))) by {
        let env = row_env(t, Seq::empty(), pv, r);
        lemma_qf_holds(env, r, h);
        lemma_eval_polys(env, 0);
        lemma_eval_polys(env, 2);
        if r != h - 1 {
            lemma_chain_complete(ro, rounds, r, t[r], t[r + 1]);
        }
    }
    if satisfied(polys, t, Seq::empty(), pv) {
        assert(holds(polys(row_env(t, Seq::empty(), pv, 0)), 0, h));
        assert(holds(polys(row_env(t, Seq::empty(), pv, h - 1)), h - 1, h));
    }
}

// The head of a tile.

/// Columns: the index bits, the products, the combination challenge, the terms.
pub const QI_ACC: usize = 10;

pub const QI_ALPHA: usize = 20;

pub const QI_TERMS: usize = 22;

/// The evaluation point and the reduced opening of a query, checked on the first row. The public
/// values are the opening.
pub struct QueryInputTileAir {
    pub n_terms: usize,
}

pub open spec fn qi_polys(env: Env, n: int) -> Seq<(Gate, int)> {
    let cols = strided(QI_TERMS as int, n);
    let x = (GENERATOR as int) * env.cur[19];
    let ro = ro_z(env.cur, cols, cols.len());
    (gated(Gate::First, bits_z(env.cur, 0, 10)) + gated(
        Gate::First,
        deep_polys(env.cur, 0, 10, 10),
    ) + gated(Gate::First, apow_polys(env.cur, QI_ALPHA as int, cols)) + gated(
        Gate::First,
        inv_polys(env.cur, x, cols),
    )).push((Gate::First, ro.0 - env.pis[0])).push((Gate::First, ro.1 - env.pis[1]))
}

impl QueryInputTileAir {
    /// There is a term, and every column can be addressed.
    pub open spec fn wf(self) -> bool {
        1 <= self.n_terms && terms_limit(self.n_terms as int)
    }

    pub fn w(&self) -> (r: usize)
        requires
            self.wf(),
        ensures
            r == QI_TERMS + 9 * self.n_terms,
    {
        QI_TERMS + 9 * self.n_terms
    }

    pub fn width(&self) -> (r: usize)
        requires
            self.wf(),
        ensures
            r == QI_TERMS + 9 * self.n_terms,
    {
        self.w()
    }

    pub fn num_public_values(&self) -> (r: usize)
        ensures
            r == 2,
    {
        2
    }

    pub fn eval(&self) -> (r: Vec<Constraint>)
        requires
            self.wf(),
        ensures
            forall|env: Env| #[trigger] denote(r@, env) == qi_polys(env, self.n_terms as int),
    {
        let cols: Vec<TermAt> = term_cols(QI_TERMS, self.n_terms);
        let x: Expr = cst(GENERATOR).times(&cur(QI_ACC + DP_LOG_HEIGHT - 1));
        let mut out: Vec<Constraint> = Vec::new();
        emit_all(&mut out, Gate::First, &bit_exprs(0, DP_LOG_HEIGHT));
        emit_all(&mut out, Gate::First, &deep_exprs(0, QI_ACC, DP_LOG_HEIGHT));
        emit_all(&mut out, Gate::First, &apow_exprs(QI_ALPHA, &cols));
        emit_all(&mut out, Gate::First, &inv_exprs(&x, &cols));
        let ro: ExtExpr = ro_expr(&cols);
        emit(&mut out, Gate::First, ro.c0.minus(&pis(0)));
        emit(&mut out, Gate::First, ro.c1.minus(&pis(1)));
        proof {
            assert forall|env: Env| #[trigger]
                denote(out@, env) == qi_polys(env, self.n_terms as int) by {
                assert(ro.val(env) == ro_z(env.cur, cols@, cols@.len()));
                assert(denote(out@, env) =~= qi_polys(env, self.n_terms as int));
            }
        }
        out
    }
}

proof fn lemma_qi_holds(env: Env, n: int, r: int, h: int)
    ensures
        holds(qi_polys(env, n), r, h) <==> (r == 0 ==> {
            let cols = strided(QI_TERMS as int, n);
            let ro = ro_z(env.cur, cols, cols.len());
            &&& vanish(bits_z(env.cur, 0, 10))
            &&& vanish(deep_polys(env.cur, 0, 10, 10))
            &&& vanish(apow_polys(env.cur, QI_ALPHA as int, cols))
            &&& vanish(inv_polys(env.cur, (GENERATOR as int) * env.cur[19], cols))
            &&& red(ro.0 - env.pis[0]) == 0
            &&& red(ro.1 - env.pis[1]) == 0
        }),
{
    let cols = strided(QI_TERMS as int, n);
    let x = (GENERATOR as int) * env.cur[19];
    let ro = ro_z(env.cur, cols, cols.len());
    let g1 = gated(Gate::First, bits_z(env.cur, 0, 10));
    let g2 = gated(Gate::First, deep_polys(env.cur, 0, 10, 10));
    let g3 = gated(Gate::First, apow_polys(env.cur, QI_ALPHA as int, cols));
    let g4 = gated(Gate::First, inv_polys(env.cur, x, cols));
    let (l0, l1) = ((Gate::First, ro.0 - env.pis[0]), (Gate::First, ro.1 - env.pis[1]));
    lemma_holds_gated(Gate::First, bits_z(env.cur, 0, 10), r, h);
    lemma_holds_gated(Gate::First, deep_polys(env.cur, 0, 10, 10), r, h);
    lemma_holds_gated(Gate::First, apow_polys(env.cur, QI_ALPHA as int, cols), r, h);
    lemma_holds_gated(Gate::First, inv_polys(env.cur, x, cols), r, h);
    lemma_holds_concat(g1, g2, r, h);
    lemma_holds_concat(g1 + g2, g3, r, h);
    lemma_holds_concat(g1 + g2 + g3, g4, r, h);
    lemma_holds_push(g1 + g2 + g3 + g4, l0, r, h);
    lemma_holds_push((g1 + g2 + g3 + g4).push(l0), l1, r, h);
}

/// Whatever trace meets the constraints, the public values are the reduced opening of the terms of
/// its first row at the evaluation point of the index of its first row.
pub proof fn law_query_input_sound(t: Seq<Seq<int>>, n: int, ro: (int, int))
    requires
        t.len() > 0,
        n >= 0,
        satisfied(|env: Env| qi_polys(env, n), t, Seq::empty(), seq![ro.0, ro.1]),
    ensures
        ered(ro) == row_opening(
            t[0],
            QI_ALPHA as int,
            point_z(number(t[0], 0, 10), 10),
            strided(QI_TERMS as int, n),
        ),
{
    let pv = seq![ro.0, ro.1];
    let polys = |env: Env| qi_polys(env, n);
    let env = row_env(t, Seq::empty(), pv, 0);
    let cols = strided(QI_TERMS as int, n);
    assert(holds(polys(env), 0, t.len() as int));
    lemma_qi_holds(env, n, 0, t.len() as int);
    law_deep_point(t[0], 0, 10, 10);
    let x = (GENERATOR as int) * t[0][19];
    lemma_head_point(t[0], QI_ALPHA as int, x, cols);
    let z = ro_z(t[0], cols, cols.len());
    lemma_cong_diff(z.0, ro.0);
    lemma_cong_diff(z.1, ro.1);
}

/// The reduced opening depends on the residue of the evaluation point alone.
pub proof fn lemma_head_point(row: Seq<int>, alpha: int, x: int, cols: Seq<TermAt>)
    requires
        vanish(apow_polys(row, alpha, cols)),
        vanish(inv_polys(row, x, cols)),
    ensures
        ered(ro_z(row, cols, cols.len())) == row_opening(row, alpha, red(x), cols),
{
    lemma_red_red(x);
    let inv = inv_polys(row, red(x), cols);
    assert forall|j: int| 0 <= j < inv.len() implies red(#[trigger] inv[j]) == 0 by {
        let k = j / 2;
        let before = inv_polys(row, x, cols);
        assert(red(before[2 * k]) == 0 && red(before[2 * k + 1]) == 0);
        assert((2 * k) / 2 == k && (2 * k) % 2 == 0 && (2 * k + 1) / 2 == k && (2 * k + 1) % 2 == 1);
        let z = pair(row, cols[k].z as int);
        let i = pair(row, cols[k].inv as int);
        let (a, b) = ((z.0 - x, z.1), (z.0 - red(x), z.1));
        crate::field::lemma_cong_sub(z.0, z.0, x, red(x));
        crate::field::lemma_econg_mul(i, i, a, b);
        let one = (1int, 0int);
        crate::field::lemma_econg_sub(crate::field::zmul(i, a), crate::field::zmul(i, b), one, one);
    }
    law_reduced_opening(row, alpha, red(x), cols, cols.len());
}

/// Fills the trace of the head of a query.
pub fn qi_build_trace(q: &Query) -> (t: Trace)
    requires
        off_points(q.terms@, point_z(q.index as int, 10)),
    ensures
        cells(t@) == repeated(head_cells(*q, 10), ROWS as int),
{
    let row: Vec<u64> = head_row(q, DP_LOG_HEIGHT);
    repeat_row(&row, ROWS)
}

/// Fills the trace of the head of a query, unless an opening point is the evaluation point.
pub fn try_qi_build_trace(q: &Query) -> (r: Option<Trace>)
    ensures
        r is Some <==> query_ok(*q, 10),
        r matches Some(t) ==> cells(t@) == repeated(head_cells(*q, 10), ROWS as int),
{
    if query_is_ok(q, DP_LOG_HEIGHT) {
        Some(qi_build_trace(q))
    } else {
        None
    }
}

/// Where the cells of a head stand in a row: from column `base` on.
pub open spec fn head_at(row: Seq<int>, q: Query, base: int) -> bool {
    let h = head_cells(q, 10);
    forall|i: int| 0 <= i < h.len() ==> #[trigger] row[base + i] == h[i]
}

pub proof fn lemma_terms_len(terms: Seq<Term>, x: int, alpha: (int, int), n: nat)
    ensures
        terms_cells(terms, x, alpha, n).len() == 9 * n,
    decreases n,
{
    if n > 0 {
        lemma_terms_len(terms, x, alpha, (n - 1) as nat);
    }
}

pub proof fn lemma_terms_at(terms: Seq<Term>, x: int, alpha: (int, int), n: nat, k: int, i: int)
    requires
        0 <= k < n,
        0 <= i < 9,
    ensures
        terms_cells(terms, x, alpha, n)[9 * k + i] == term_cells(
            terms[k],
            x,
            power_z(alpha, k as nat),
        )[i],
    decreases n,
{
    let m = (n - 1) as nat;
    lemma_terms_len(terms, x, alpha, m);
    if k < m {
        lemma_terms_at(terms, x, alpha, m, k, i);
    } else {
        assert(9 * k + i - 9 * m == i);
    }
}

/// The head of a query meets the constraints on its bits, its products, its powers and its
/// inverses, and its columns hold its terms.
pub proof fn lemma_head_complete(row: Seq<int>, q: Query, base: int)
    requires
        0 <= base,
        base + 9 * q.terms.len() + 100 <= usize::MAX,
        head_at(row, q, base),
        off_points(q.terms@, point_z(q.index as int, 10)),
    ensures
        ({
            let cols = strided(base + 22, q.terms.len() as int);
            let x = (GENERATOR as int) * row[base + 19];
            &&& vanish(bits_z(row, base, 10))
            &&& vanish(deep_polys(row, base, base + 10, 10))
            &&& vanish(apow_polys(row, base + 20, cols))
            &&& vanish(inv_polys(row, x, cols))
            &&& ered(ro_z(row, cols, cols.len())) == opening_of(
                q.terms@,
                point_z(q.index as int, 10),
                q.alpha@,
            )
        }),
{
    let v = q.index as int;
    let h = head_cells(q, 10);
    let n = q.terms.len() as int;
    let x = point_z(v, 10);
    lemma_terms_len(q.terms@, x, q.alpha@, q.terms@.len());
    assert(h.len() == 22 + 9 * n);
    assert forall|j: int| 0 <= j < 10 implies #[trigger] row[base + j] == bit_of(v, j) by {
        assert(row[base + j] == h[j]);
    }
    assert forall|j: int| 0 <= j < 10 implies #[trigger] row[base + 10 + j]
        == super::cells::acc_z(v, 10, (j + 1) as nat) by {
        assert(row[base + (10 + j)] == h[10 + j]);
    }
    lemma_deep_complete(row, base, base + 10, 10, v);
    assert(row[base + 19] == super::cells::acc_z(v, 10, 10)) by {
        assert(row[base + 10 + 9] == super::cells::acc_z(v, 10, 10));
    }
    let y = (GENERATOR as int) * row[base + 19];
    assert(red(y) == x);
    let cols = strided(base + 22, n);
    assert(pair(row, base + 20) == q.alpha@) by {
        assert(row[base + 20] == h[20] && row[base + 21] == h[21]);
    }
    lemma_red_red(y);
    assert forall|k: int|
        #![trigger cols[k]]
        0 <= k < n implies pair(row, cols[k].apow as int) == power_z(
        pair(row, base + 20),
        k as nat,
    ) && is_einverse(
        (pair(row, cols[k].z as int).0 - y, pair(row, cols[k].z as int).1),
        pair(row, cols[k].inv as int),
    ) && pair(row, cols[k].z as int) == q.terms@[k].z@ && pair(row, cols[k].pz as int)
        == q.terms@[k].pz@ && row[cols[k].px as int] == q.terms@[k].px by {
        let c = cols[k];
        assert(c == term_at(base + 22, k));
        let cs = term_cells(q.terms@[k], x, power_z(q.alpha@, k as nat));
        assert forall|i: int| 0 <= i < 9 implies #[trigger] row[base + 22 + 9 * k + i] == cs[i] by {
            lemma_terms_at(q.terms@, x, q.alpha@, q.terms@.len(), k, i);
            assert(row[base + (22 + 9 * k + i)] == h[22 + 9 * k + i]);
            assert(h[22 + 9 * k + i] == terms_cells(q.terms@, x, q.alpha@, q.terms@.len())[9 * k + i]);
        }
        let at = base + 22 + 9 * k;
        assert(row[at + 0] == cs[0] && row[at + 1] == cs[1] && row[at + 2] == cs[2] && row[at + 3]
            == cs[3] && row[at + 4] == cs[4] && row[at + 5] == cs[5] && row[at + 6] == cs[6] && row[at
            + 7] == cs[7] && row[at + 8] == cs[8]);
        let z = q.terms@[k].z@;
        lemma_inv_at(z, x);
        crate::field::lemma_cong_sub(z.0, z.0, x, y);
        crate::field::lemma_econg_mul((z.0 - x, z.1), (z.0 - y, z.1), inv_at(z, x), inv_at(z, x));
    }
    assert forall|k: int| 0 <= k < n implies pair(row, (#[trigger] cols[k]).z as int)
        == q.terms@[k].z@ by {}
    assert(col_zs(row, cols) =~= term_zs(q.terms@));
    assert(col_pzs(row, cols) =~= term_pzs(q.terms@));
    assert(col_pxs(row, cols) =~= term_pxs(q.terms@));
    lemma_opening_complete(row, base + 20, y, cols);
    lemma_head_point(row, base + 20, y, cols);
}

/// The trace of the head of a query meets the constraints exactly for its reduced opening.
pub proof fn law_query_input_complete(q: Query, ro: (int, int))
    requires
        terms_limit(q.terms.len() as int),
        off_points(q.terms@, point_z(q.index as int, 10)),
    ensures
        satisfied(
            |env: Env| qi_polys(env, q.terms.len() as int),
            repeated(head_cells(q, 10), ROWS as int),
            Seq::empty(),
            seq![ro.0, ro.1],
        ) <==> ered(ro) == opening_of(q.terms@, point_z(q.index as int, 10), q.alpha@),
{
    let n = q.terms.len() as int;
    let row = head_cells(q, 10);
    let t = repeated(row, ROWS as int);
    let pv = seq![ro.0, ro.1];
    let h = t.len() as int;
    let polys = |env: Env| qi_polys(env, n);
    lemma_head_complete(row, q, 0);
    let cols = strided(QI_TERMS as int, n);
    let z = ro_z(row, cols, cols.len());
    lemma_cong_diff(z.0, ro.0);
    lemma_cong_diff(z.1, ro.1);
    assert forall|r: int|
        #![trigger row_env(t, Seq::empty(), pv, r)]
        0 <= r < h implies (holds(polys(row_env(t, Seq::empty(), pv, r)), r, h) <==> (r == 0
        ==> ered(ro) == opening_of(q.terms@, point_z(q.index as int, 10), q.alpha@))) by {
        lemma_qi_holds(row_env(t, Seq::empty(), pv, r), n, r, h);
    }
    if satisfied(polys, t, Seq::empty(), pv) {
        assert(holds(polys(row_env(t, Seq::empty(), pv, 0)), 0, h));
    }
}

} // verus!
