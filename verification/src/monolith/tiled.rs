//! The whole arithmetic of a query as one system, and the same laid out once per query.
use super::cells::{
    chain_cells, chain_fold_rows, extend, head_cells, head_row, off_points, point_z, query_is_ok,
    query_ok, running, zero_cells, zeros, Query,
};
use super::parts::{
    accept_list, accept_part, fold_list, fold_part, opening_list, opening_part, point_list,
    point_part, terms_limit, term_cols, tile_point, tile_terms, DP_LOG_HEIGHT, QT_ACC, QT_ALPHA,
    QT_DBITS, QT_TERMS,
};
use super::query::{opening_of, row_opening};
use super::query_tile::{
    chain_height, eval_polys, fold_along, head_at, lemma_chain_complete, lemma_eval_polys,
    lemma_fold_along, lemma_head_complete, lemma_head_point, lemma_running_end,
};
use crate::cols::{hot_col, hot_z, is_pow2, lemma_np2, lemma_np2_pow2, next_power_of_two, np2};
use crate::expr::{
    cells, cst, cur, denote, emit_all, Constraint, Env, Expr, ExtExpr, gated, Gate, holds,
    lemma_holds_concat, lemma_holds_gated, lemma_holds_push, lemma_scaled, pair, per, pis, row_env,
    satisfied, scaled, Trace, vals, vanish,
};
use crate::field::{econg, ints, lemma_cong_diff, lemma_ered, lemma_red_small, red, GENERATOR};
use crate::gadget_laws::{law_deep_point, number};
use crate::gadgets::{
    apow_exprs, apow_polys, bit_exprs, bits_z, deep_exprs, deep_polys, fold_exprs, fold_polys,
    inv_exprs, inv_polys, ro_expr, ro_z, TermAt, F_E,
};
use vstd::prelude::*;

verus! {

/// The arithmetic of one query: the head on the first row, a fold round on every row, and the end
/// of the chain on the last row. The public values are the evaluation that the chain ends in.
pub struct QueryTileAir {
    pub n_terms: usize,
}

/// That the fold chain starts from the reduced opening.
pub open spec fn start_polys(row: Seq<int>, cols: Seq<TermAt>) -> Seq<int> {
    let ro = ro_z(row, cols, cols.len());
    seq![row[0] - ro.0, row[1] - ro.1]
}

pub open spec fn qt_polys(env: Env, n: int) -> Seq<(Gate, int)> {
    let cols = tile_terms(n);
    gated(Gate::First, bits_z(env.cur, 9, 10)) + gated(
        Gate::First,
        deep_polys(env.cur, 9, 19, 10),
    ) + gated(Gate::First, apow_polys(env.cur, 29, cols)) + gated(
        Gate::First,
        inv_polys(env.cur, tile_point(env.cur), cols),
    ) + gated(Gate::First, start_polys(env.cur, cols)) + gated(
        Gate::Transition,
        fold_polys(env.cur, env.nxt),
    ) + gated(Gate::Last, eval_polys(env, 0))
}

impl QueryTileAir {
    /// There is a term, and every column can be addressed.
    pub open spec fn wf(self) -> bool {
        1 <= self.n_terms && terms_limit(self.n_terms as int)
    }

    pub fn w(&self) -> (r: usize)
        requires
            self.wf(),
        ensures
            r == QT_TERMS + 9 * self.n_terms,
    {
        QT_TERMS + 9 * self.n_terms
    }

    pub fn width(&self) -> (r: usize)
        requires
            self.wf(),
        ensures
            r == QT_TERMS + 9 * self.n_terms,
    {
        self.w()
    }

    pub fn num_public_values(&self) -> (r: usize)
        ensures
            r == 2,
    {
        2
    }

    pub fn eval(&self) -> (r: Vec<Constraint>)
        requires
            self.wf(),
        ensures
            forall|env: Env| #[trigger] denote(r@, env) == qt_polys(env, self.n_terms as int),
    {
        let cols: Vec<TermAt> = term_cols(QT_TERMS, self.n_terms);
        let x: Expr = cst(GENERATOR).times(&cur(QT_ACC + DP_LOG_HEIGHT - 1));
        let mut out: Vec<Constraint> = Vec::new();
        emit_all(&mut out, Gate::First, &bit_exprs(QT_DBITS, DP_LOG_HEIGHT));
        emit_all(&mut out, Gate::First, &deep_exprs(QT_DBITS, QT_ACC, DP_LOG_HEIGHT));
        emit_all(&mut out, Gate::First, &apow_exprs(QT_ALPHA, &cols));
        emit_all(&mut out, Gate::First, &inv_exprs(&x, &cols));
        let ro: ExtExpr = ro_expr(&cols);
        let start: Vec<Expr> = vec![cur(F_E).minus(&ro.c0), cur(F_E + 1).minus(&ro.c1)];
        proof {
            assert forall|env: Env| #[trigger] vals(start@, env) == start_polys(env.cur, cols@) by {
                assert(ro.val(env) == ro_z(env.cur, cols@, cols@.len()));
                assert(vals(start@, env) =~= start_polys(env.cur, cols@));
            }
        }
        emit_all(&mut out, Gate::First, &start);
        emit_all(&mut out, Gate::Transition, &fold_exprs());
        let end: Vec<Expr> = vec![cur(F_E).minus(&pis(0)), cur(F_E + 1).minus(&pis(1))];
        proof {
            assert forall|env: Env| #[trigger] vals(end@, env) == eval_polys(env, 0) by {
                assert(vals(end@, env) =~= eval_polys(env, 0));
            }
        }
        emit_all(&mut out, Gate::Last, &end);
        proof {
            assert forall|env: Env| #[trigger]
                denote(out@, env) == qt_polys(env, self.n_terms as int) by {
                assert(denote(out@, env) =~= qt_polys(env, self.n_terms as int));
            }
        }
        out
    }
}

/// What the head of a tile demands of its row.
pub open spec fn head_holds(row: Seq<int>, n: int) -> bool {
    let cols = tile_terms(n);
    &&& vanish(bits_z(row, 9, 10))
    &&& vanish(deep_polys(row, 9, 19, 10))
    &&& vanish(apow_polys(row, 29, cols))
    &&& vanish(inv_polys(row, tile_point(row), cols))
    &&& vanish(start_polys(row, cols))
}

proof fn lemma_qt_holds(env: Env, n: int, r: int, h: int)
    ensures
        holds(qt_polys(env, n), r, h) <==> {
            &&& r == 0 ==> head_holds(env.cur, n)
            &&& r != h - 1 ==> vanish(fold_polys(env.cur, env.nxt))
            &&& r == h - 1 ==> vanish(eval_polys(env, 0))
        },
{
    let cols = tile_terms(n);
    let (p1, p2) = (bits_z(env.cur, 9, 10), deep_polys(env.cur, 9, 19, 10));
    let (p3, p4) = (apow_polys(env.cur, 29, cols), inv_polys(env.cur, tile_point(env.cur), cols));
    let (p5, p6, p7) = (
        start_polys(env.cur, cols),
        fold_polys(env.cur, env.nxt),
        eval_polys(env, 0),
    );
    let (g1, g2, g3) = (gated(Gate::First, p1), gated(Gate::First, p2), gated(Gate::First, p3));
    let (g4, g5) = (gated(Gate::First, p4), gated(Gate::First, p5));
    let (g6, g7) = (gated(Gate::Transition, p6), gated(Gate::Last, p7));
    lemma_holds_gated(Gate::First, p1, r, h);
    lemma_holds_gated(Gate::First, p2, r, h);
    lemma_holds_gated(Gate::First, p3, r, h);
    lemma_holds_gated(Gate::First, p4, r, h);
    lemma_holds_gated(Gate::First, p5, r, h);
    lemma_holds_gated(Gate::Transition, p6, r, h);
    lemma_holds_gated(Gate::Last, p7, r, h);
    lemma_holds_concat(g1, g2, r, h);
    lemma_holds_concat(g1 + g2, g3, r, h);
    lemma_holds_concat(g1 + g2 + g3, g4, r, h);
    lemma_holds_concat(g1 + g2 + g3 + g4, g5, r, h);
    lemma_holds_concat(g1 + g2 + g3 + g4 + g5, g6, r, h);
    lemma_holds_concat(g1 + g2 + g3 + g4 + g5 + g6, g7, r, h);
}

/// The reduced opening that the head of a tile calls for: of the terms of the row, at the evaluation
/// point of the index of the row.
pub open spec fn head_opening(row: Seq<int>, n: int) -> (int, int) {
    row_opening(row, 29, point_z(number(row, 9, 10), 10), tile_terms(n))
}

/// A head that holds starts the fold chain from its reduced opening.
pub proof fn lemma_head_sound(row: Seq<int>, n: int)
    requires
        head_holds(row, n),
    ensures
        econg(head_opening(row, n), pair(row, 0)),
{
    let cols = tile_terms(n);
    law_deep_point(row, 9, 19, 10);
    lemma_head_point(row, 29, tile_point(row), cols);
    let ro = ro_z(row, cols, cols.len());
    let s = start_polys(row, cols);
    assert(red(s[0]) == 0 && red(s[1]) == 0);
    lemma_cong_diff(row[0], ro.0);
    lemma_cong_diff(row[1], ro.1);
    lemma_ered(ro);
}

/// Whatever trace meets the constraints, the reduced opening of its head folds to the public values
/// along its rows.
pub proof fn law_query_tile_sound(t: Seq<Seq<int>>, n: int, pv: Seq<int>)
    requires
        t.len() >= 2,
        satisfied(|env: Env| qt_polys(env, n), t, Seq::empty(), pv),
    ensures
        econg(
            pair(pv, 0),
            fold_along(head_opening(t[0], n), t, 0, (t.len() - 1) as nat),
        ),
{
    let polys = |env: Env| qt_polys(env, n);
    let h = t.len() as int;
    let env = row_env(t, Seq::empty(), pv, 0);
    assert(holds(polys(env), 0, h));
    lemma_qt_holds(env, n, 0, h);
    lemma_head_sound(t[0], n);
    assert forall|j: int|
        #![trigger t[0 + j]]
        0 <= j < h - 1 implies vanish(fold_polys(t[0 + j], t[0 + j + 1])) by {
        let e = row_env(t, Seq::empty(), pv, j);
        assert(holds(polys(e), j, h));
        lemma_qt_holds(e, n, j, h);
    }
    lemma_fold_along(t, head_opening(t[0], n), 0, (h - 1) as nat);
    let last = row_env(t, Seq::empty(), pv, h - 1);
    assert(holds(polys(last), h - 1, h));
    lemma_qt_holds(last, n, h - 1, h);
    lemma_eval_polys(last, 0);
}

/// Row `r` of the tile of a query with room for `n` terms.
pub open spec fn tile_row(q: Query, n: int, r: int) -> Seq<int> {
    chain_cells(q.ro@, q.rounds@, r) + (if r == 0 {
        head_cells(q, 10) + zeros(9 * (n - q.terms.len()))
    } else {
        zeros(22 + 9 * n)
    })
}

pub open spec fn qt_trace(q: Query) -> Seq<Seq<int>> {
    Seq::new(
        chain_height(q.rounds.len() as int) as nat,
        |r: int| tile_row(q, q.terms.len() as int, r),
    )
}

/// The first `h` rows of the tile of a query.
pub fn tile_rows(q: &Query, n: usize, h: usize) -> (t: Trace)
    requires
        terms_limit(n as int),
        q.terms.len() <= n,
        query_ok(*q, 10),
    ensures
        t.len() == h,
        forall|r: int| 0 <= r < h ==> ints((#[trigger] t@[r])@) == tile_row(*q, n as int, r),
{
    let chain: Trace = chain_fold_rows(q.ro, &q.rounds, h);
    let mut t: Trace = Vec::new();
    for r in 0..h
        invariant
            terms_limit(n as int),
            q.terms.len() <= n,
            query_ok(*q, 10),
            chain.len() == h,
            forall|i: int|
                0 <= i < h ==> ints((#[trigger] chain@[i])@) == chain_cells(q.ro@, q.rounds@, i),
            t.len() == r,
            forall|i: int| 0 <= i < r ==> ints((#[trigger] t@[i])@) == tile_row(*q, n as int, i),
    {
        let mut row: Vec<u64> = Vec::new();
        extend(&mut row, &chain[r]);
        assert(ints(row@) =~= chain_cells(q.ro@, q.rounds@, r as int));
        if r == 0 {
            let mut head: Vec<u64> = head_row(q, DP_LOG_HEIGHT);
            extend(&mut head, &zero_cells(9 * (n - q.terms.len())));
            extend(&mut row, &head);
        } else {
            extend(&mut row, &zero_cells(22 + 9 * n));
        }
        t.push(row);
    }
    t
}

/// Fills the trace of a query.
pub fn qt_build_trace(q: &Query) -> (t: Trace)
    requires
        terms_limit(q.terms.len() as int),
        np2(q.rounds.len() + 1) <= usize::MAX,
        query_ok(*q, 10),
    ensures
        cells(t@) == qt_trace(*q),
{
    let h: usize = super::query_tile::height_of_chain(q.rounds.len());
    let t: Trace = tile_rows(q, q.terms.len(), h);
    assert(cells(t@) =~= qt_trace(*q));
    t
}

/// Fills the trace of a query, unless an opening point is its evaluation point or a fold point is
/// zero.
pub fn try_qt_build_trace(q: &Query) -> (r: Option<Trace>)
    requires
        terms_limit(q.terms.len() as int),
        np2(q.rounds.len() + 1) <= usize::MAX,
    ensures
        r is Some <==> query_ok(*q, 10),
        r matches Some(t) ==> cells(t@) == qt_trace(*q),
{
    if query_is_ok(q, DP_LOG_HEIGHT) {
        Some(qt_build_trace(q))
    } else {
        None
    }
}

/// The fold cells and the head of a row of a tile.
pub proof fn lemma_tile_row(q: Query, n: int, r: int)
    requires
        0 <= q.terms.len() <= n,
        0 <= r,
    ensures
        forall|i: int|
            0 <= i < 9 ==> #[trigger] tile_row(q, n, r)[i] == chain_cells(q.ro@, q.rounds@, r)[i],
        r == 0 ==> head_at(tile_row(q, n, r), q, 9),
        tile_row(q, n, r).len() == 31 + 9 * n,
        pair(tile_row(q, n, r), 0) == running(q.ro@, q.rounds@, r as nat),
{
    let c = chain_cells(q.ro@, q.rounds@, r);
    let row = tile_row(q, n, r);
    assert(c.len() == 9);
    let x = point_z(q.index as int, 10);
    super::query_tile::lemma_terms_len(q.terms@, x, q.alpha@, q.terms@.len());
    let h = head_cells(q, 10);
    assert(h.len() == 22 + 9 * q.terms.len());
    if r == 0 {
        assert forall|i: int| 0 <= i < h.len() implies #[trigger] row[9 + i] == h[i] by {}
    }
    assert(row[0] == c[0] && row[1] == c[1]);
}

/// The head of a tile that is laid out holds exactly where its running evaluation starts from its
/// reduced opening.
pub proof fn lemma_tile_head(row: Seq<int>, q: Query)
    requires
        terms_limit(q.terms.len() as int),
        off_points(q.terms@, point_z(q.index as int, 10)),
        head_at(row, q, 9),
    ensures
        head_holds(row, q.terms.len() as int) <==> econg(
            pair(row, 0),
            opening_of(q.terms@, point_z(q.index as int, 10), q.alpha@),
        ),
{
    let n = q.terms.len() as int;
    let cols = tile_terms(n);
    lemma_head_complete(row, q, 9);
    let ro = ro_z(row, cols, cols.len());
    let s = start_polys(row, cols);
    lemma_cong_diff(row[0], ro.0);
    lemma_cong_diff(row[1], ro.1);
    lemma_ered(ro);
    if vanish(s) {
        assert(red(s[0]) == 0 && red(s[1]) == 0);
    }
}

/// The trace of a query meets the constraints exactly where its chain starts from its reduced
/// opening and ends in the public values.
pub proof fn law_query_tile_complete(q: Query, pv: Seq<int>)
    requires
        terms_limit(q.terms.len() as int),
        query_ok(q, 10),
    ensures
        satisfied(
            |env: Env| qt_polys(env, q.terms.len() as int),
            qt_trace(q),
            Seq::empty(),
            pv,
        ) <==> econg(q.ro@, opening_of(q.terms@, point_z(q.index as int, 10), q.alpha@)) && econg(
            pair(pv, 0),
            running(q.ro@, q.rounds@, q.rounds@.len()),
        ),
{
    let n = q.terms.len() as int;
    let t = qt_trace(q);
    let polys = |env: Env| qt_polys(env, n);
    let h = t.len() as int;
    let opening = opening_of(q.terms@, point_z(q.index as int, 10), q.alpha@);
    let end = running(q.ro@, q.rounds@, q.rounds@.len());
    lemma_np2(q.rounds.len() as int + 1);
    lemma_running_end(q.ro@, q.rounds@, (h - 1) as nat);
    assert forall|r: int|
        #![trigger row_env(t, Seq::empty(), pv, r)]
        0 <= r < h implies (holds(polys(row_env(t, Seq::empty(), pv, r)), r, h) <==> (r == 0
        ==> econg(q.ro@, opening)) && (r == h - 1 ==> econg(pair(pv, 0), end))) by {
        let env = row_env(t, Seq::empty(), pv, r);
        lemma_qt_holds(env, n, r, h);
        lemma_eval_polys(env, 0);
        lemma_tile_row(q, n, r);
        if r == 0 {
            lemma_tile_head(t[0], q);
            assert(running(q.ro@, q.rounds@, 0) == q.ro@);
        }
        if r != h - 1 {
            lemma_tile_row(q, n, r + 1);
            lemma_chain_complete(q.ro@, q.rounds@, r, t[r], t[r + 1]);
        }
    }
    if satisfied(polys, t, Seq::empty(), pv) {
        assert(holds(polys(row_env(t, Seq::empty(), pv, 0)), 0, h));
        assert(holds(polys(row_env(t, Seq::empty(), pv, h - 1)), h - 1, h));
    }
}

// One tile per query.

/// The rows of a tile.
pub const TILE_H: usize = 8;

/// The arithmetic of `n_queries` queries, one tile each. The public values are the evaluation that
/// every chain ends in.
pub struct TiledQueryAir {
    pub n_queries: usize,
    pub n_terms: usize,
}

pub open spec fn tq_polys(env: Env, n: int) -> Seq<(Gate, int)> {
    let (tf, tl) = (env.per[0], env.per[1]);
    accept_list(
        fold_list(
            opening_list(point_list(Seq::empty(), env, tf), env, tf, n),
            env,
            1 - tl,
        ),
        env,
        tl,
        0,
    )
}

/// The periodic columns: the first and the last row of each tile.
pub open spec fn tq_cols(nq: int) -> Seq<Seq<int>> {
    let h = np2(8 * nq) as nat;
    seq![
        Seq::new(h, |r: int| hot_z(r, 0, 8, nq, 0)),
        Seq::new(h, |r: int| hot_z(r, 0, 8, nq, 7)),
    ]
}

impl TiledQueryAir {
    /// There is a term, every column can be addressed, and the trace has a height.
    pub open spec fn wf(self) -> bool {
        &&& 1 <= self.n_terms
        &&& terms_limit(self.n_terms as int)
        &&& np2(8 * self.n_queries) <= usize::MAX
    }

    pub fn w(&self) -> (r: usize)
        requires
            self.wf(),
        ensures
            r == QT_TERMS + 9 * self.n_terms,
    {
        QT_TERMS + 9 * self.n_terms
    }

    pub fn width(&self) -> (r: usize)
        requires
            self.wf(),
        ensures
            r == QT_TERMS + 9 * self.n_terms,
    {
        self.w()
    }

    pub fn num_public_values(&self) -> (r: usize)
        ensures
            r == 2,
    {
        2
    }

    pub fn num_periodic_columns(&self) -> (r: usize)
        ensures
            r == 2,
    {
        2
    }

    pub fn height(&self) -> (r: usize)
        requires
            self.wf(),
        ensures
            r == np2(8 * self.n_queries),
    {
        proof {
            lemma_np2(8 * self.n_queries);
        }
        next_power_of_two(self.n_queries * TILE_H)
    }

    pub fn periodic(&self) -> (cols: Vec<Vec<u64>>)
        requires
            self.wf(),
        ensures
            cells(cols@) == tq_cols(self.n_queries as int),
    {
        let h: usize = self.height();
        let tf: Vec<u64> = hot_col(h, 0, TILE_H, self.n_queries, 0);
        let tl: Vec<u64> = hot_col(h, 0, TILE_H, self.n_queries, TILE_H - 1);
        let cols: Vec<Vec<u64>> = vec![tf, tl];
        proof {
            let want = tq_cols(self.n_queries as int);
            assert(ints(cols@[0]@) =~= want[0]);
            assert(ints(cols@[1]@) =~= want[1]);
            assert(cells(cols@) =~= want);
        }
        cols
    }

    pub fn eval(&self) -> (r: Vec<Constraint>)
        requires
            self.wf(),
        ensures
            forall|env: Env| #[trigger] denote(r@, env) == tq_polys(env, self.n_terms as int),
    {
        let tf: Expr = per(0);
        let tl: Expr = per(1);
        let mut out: Vec<Constraint> = Vec::new();
        proof {
            assert forall|env: Env| #[trigger] denote(out@, env) == Seq::<(Gate, int)>::empty() by {
                assert(denote(out@, env) =~= Seq::<(Gate, int)>::empty());
            }
        }
        point_part(&mut out, &tf);
        opening_part(&mut out, &tf, self.n_terms);
        fold_part(&mut out, &cst(1).minus(&tl));
        accept_part(&mut out, &tl, 0);
        out
    }
}

/// A list scaled by `k` vanishes where `k` is zero, and where `k` is one exactly if it does.
pub proof fn lemma_switch(k: int, s: Seq<int>)
    requires
        k == 0 || k == 1,
    ensures
        vanish(scaled(k, s)) <==> (k == 1 ==> vanish(s)),
{
    lemma_scaled(k, s);
}

/// The head of a tile where `on` is set.
pub proof fn lemma_head_list(acc: Seq<(Gate, int)>, env: Env, on: int, n: int, r: int, h: int)
    requires
        on == 0 || on == 1,
    ensures
        holds(opening_list(point_list(acc, env, on), env, on, n), r, h) <==> holds(acc, r, h) && (on
            == 1 ==> head_holds(env.cur, n)),
{
    let cols = tile_terms(n);
    let ro = ro_z(env.cur, cols, cols.len());
    let (p1, p2) = (bits_z(env.cur, 9, 10), deep_polys(env.cur, 9, 19, 10));
    let (p3, p4) = (apow_polys(env.cur, 29, cols), inv_polys(env.cur, tile_point(env.cur), cols));
    let (s1, s2, s3, s4) = (scaled(on, p1), scaled(on, p2), scaled(on, p3), scaled(on, p4));
    lemma_switch(on, p1);
    lemma_switch(on, p2);
    lemma_switch(on, p3);
    lemma_switch(on, p4);
    let (g1, g2) = (gated(Gate::Always, s1), gated(Gate::Always, s2));
    let (g3, g4) = (gated(Gate::Always, s3), gated(Gate::Always, s4));
    lemma_holds_gated(Gate::Always, s1, r, h);
    lemma_holds_gated(Gate::Always, s2, r, h);
    lemma_holds_gated(Gate::Always, s3, r, h);
    lemma_holds_gated(Gate::Always, s4, r, h);
    lemma_holds_concat(acc, g1, r, h);
    lemma_holds_concat(acc + g1, g2, r, h);
    lemma_holds_concat(acc + g1 + g2, g3, r, h);
    lemma_holds_concat(acc + g1 + g2 + g3, g4, r, h);
    let all = acc + g1 + g2 + g3 + g4;
    let l0 = (Gate::Always, on * (env.cur[0] - ro.0));
    let l1 = (Gate::Always, on * (env.cur[1] - ro.1));
    lemma_holds_push(all, l0, r, h);
    lemma_holds_push(all.push(l0), l1, r, h);
    lemma_one(on, env.cur[0] - ro.0);
    lemma_one(on, env.cur[1] - ro.1);
    let s = start_polys(env.cur, cols);
    if vanish(s) {
        assert(red(s[0]) == 0 && red(s[1]) == 0);
    }
}

/// A value scaled by a bit.
pub proof fn lemma_one(k: int, x: int)
    requires
        k == 0 || k == 1,
    ensures
        red(k * x) == 0 <==> (k == 1 ==> red(x) == 0),
{
    lemma_red_small(0);
    assert(0 * x == 0 && 1 * x == x);
}

/// The end of a chain where `on` is set.
pub proof fn lemma_accept_list(acc: Seq<(Gate, int)>, env: Env, on: int, at: int, r: int, h: int)
    requires
        on == 0 || on == 1,
    ensures
        holds(accept_list(acc, env, on, at), r, h) <==> holds(acc, r, h) && (on == 1 ==> econg(
            pair(env.cur, 0),
            pair(env.pis, at),
        )),
{
    let l0 = (Gate::Always, on * (env.cur[0] - env.pis[at]));
    let l1 = (Gate::Always, on * (env.cur[1] - env.pis[at + 1]));
    lemma_holds_push(acc, l0, r, h);
    lemma_holds_push(acc.push(l0), l1, r, h);
    lemma_one(on, env.cur[0] - env.pis[at]);
    lemma_one(on, env.cur[1] - env.pis[at + 1]);
    lemma_cong_diff(env.cur[0], env.pis[at]);
    lemma_cong_diff(env.cur[1], env.pis[at + 1]);
}

/// A fold step where `on` is set.
pub proof fn lemma_fold_list(acc: Seq<(Gate, int)>, env: Env, on: int, r: int, h: int)
    requires
        on == 0 || on == 1,
    ensures
        holds(fold_list(acc, env, on), r, h) <==> holds(acc, r, h) && (r != h - 1 && on == 1
            ==> vanish(fold_polys(env.cur, env.nxt))),
{
    let f = fold_polys(env.cur, env.nxt);
    lemma_switch(on, f);
    lemma_holds_gated(Gate::Transition, scaled(on, f), r, h);
    lemma_holds_concat(acc, gated(Gate::Transition, scaled(on, f)), r, h);
}

proof fn lemma_tq_holds(env: Env, n: int, r: int, h: int)
    requires
        env.per[0] == 0 || env.per[0] == 1,
        env.per[1] == 0 || env.per[1] == 1,
    ensures
        holds(tq_polys(env, n), r, h) <==> {
            &&& env.per[0] == 1 ==> head_holds(env.cur, n)
            &&& r != h - 1 && env.per[1] == 0 ==> vanish(fold_polys(env.cur, env.nxt))
            &&& env.per[1] == 1 ==> econg(pair(env.cur, 0), pair(env.pis, 0))
        },
{
    let (tf, tl) = (env.per[0], env.per[1]);
    let none = Seq::<(Gate, int)>::empty();
    assert(holds(none, r, h));
    lemma_head_list(none, env, tf, n, r, h);
    let a = opening_list(point_list(none, env, tf), env, tf, n);
    lemma_fold_list(a, env, 1 - tl, r, h);
    lemma_accept_list(fold_list(a, env, 1 - tl), env, tl, 0, r, h);
}

/// What the periodic columns hold at row `r`.
proof fn lemma_tq_env(t: Seq<Seq<int>>, pv: Seq<int>, nq: int, r: int)
    requires
        0 <= r < np2(8 * nq),
        nq >= 0,
    ensures
        row_env(t, tq_cols(nq), pv, r).per[0] == hot_z(r, 0, 8, nq, 0),
        row_env(t, tq_cols(nq), pv, r).per[1] == hot_z(r, 0, 8, nq, 7),
{
    let c = tq_cols(nq);
    assert(c[0].len() == np2(8 * nq) && c[1].len() == np2(8 * nq));
    assert(r % np2(8 * nq) == r) by {
        vstd::arithmetic::div_mod::lemma_small_mod(r as nat, np2(8 * nq) as nat);
    }
}

/// Whatever trace meets the constraints, the reduced opening of the head of every tile folds to the
/// public values along the rows of the tile.
pub proof fn law_tiled_query_sound(t: Seq<Seq<int>>, nq: int, n: int, pv: Seq<int>, q: int)
    requires
        0 <= q < nq,
        t.len() == np2(8 * nq),
        satisfied(|env: Env| tq_polys(env, n), t, tq_cols(nq), pv),
    ensures
        econg(pair(pv, 0), fold_along(head_opening(t[8 * q], n), t, 8 * q, 7)),
{
    let polys = |env: Env| tq_polys(env, n);
    let h = t.len() as int;
    let base = 8 * q;
    lemma_np2(8 * nq);
    assert forall|j: int| 0 <= j < 8 implies {
        let env = #[trigger] row_env(t, tq_cols(nq), pv, base + j);
        &&& j == 0 ==> head_holds(env.cur, n)
        &&& j < 7 ==> vanish(fold_polys(env.cur, env.nxt))
        &&& j == 7 ==> econg(pair(env.cur, 0), pair(pv, 0))
    } by {
        let r = base + j;
        let env = row_env(t, tq_cols(nq), pv, r);
        lemma_tq_env(t, pv, nq, r);
        assert(holds(polys(env), r, h));
        lemma_tq_holds(env, n, r, h);
        assert(hot_z(r, 0, 8, nq, 0) == (if j == 0 { 1int } else { 0int }));
        assert(hot_z(r, 0, 8, nq, 7) == (if j == 7 { 1int } else { 0int }));
    }
    let e0 = row_env(t, tq_cols(nq), pv, base + 0);
    assert(e0.cur == t[base]);
    lemma_head_sound(t[base], n);
    assert forall|j: int|
        #![trigger t[base + j]]
        0 <= j < 7 implies vanish(fold_polys(t[base + j], t[base + j + 1])) by {
        let e = row_env(t, tq_cols(nq), pv, base + j);
        assert(e.cur == t[base + j] && e.nxt == t[base + j + 1]);
    }
    lemma_fold_along(t, head_opening(t[base], n), base, 7);
    let e7 = row_env(t, tq_cols(nq), pv, base + 7);
    assert(e7.cur == t[base + 7]);
}

/// Row `r` of the trace of queries with room for `n` terms each; rows beyond the tiles are zero.
pub open spec fn tq_row(qs: Seq<Query>, n: int, r: int) -> Seq<int> {
    if r < 8 * qs.len() {
        tile_row(qs[r / 8], n, r % 8)
    } else {
        zeros(31 + 9 * n)
    }
}

pub open spec fn tq_trace(qs: Seq<Query>, n: int) -> Seq<Seq<int>> {
    Seq::new(np2(8 * qs.len() as int) as nat, |r: int| tq_row(qs, n, r))
}

/// Every query can be put into a tile with room for `n` terms.
pub open spec fn queries_ok(qs: Seq<Query>, n: int) -> bool {
    forall|i: int|
        #![trigger qs[i]]
        0 <= i < qs.len() ==> query_ok(qs[i], 10) && qs[i].terms.len() <= n
}

/// Fills the trace of a list of queries.
pub fn tq_build_trace(n_terms: usize, per_query: &Vec<Query>) -> (t: Trace)
    requires
        terms_limit(n_terms as int),
        np2(8 * per_query.len()) <= usize::MAX,
        queries_ok(per_query@, n_terms as int),
    ensures
        cells(t@) == tq_trace(per_query@, n_terms as int),
{
    let nq: usize = per_query.len();
    proof {
        lemma_np2(8 * nq);
    }
    let h: usize = next_power_of_two(nq * TILE_H);
    let mut t: Trace = Vec::new();
    for q in 0..nq
        invariant
            nq == per_query.len(),
            terms_limit(n_terms as int),
            queries_ok(per_query@, n_terms as int),
            t.len() == 8 * q,
            forall|i: int|
                0 <= i < 8 * q ==> ints((#[trigger] t@[i])@) == tq_row(
                    per_query@,
                    n_terms as int,
                    i,
                ),
    {
        assert(query_ok(per_query@[q as int], 10));
        let mut rows: Trace = tile_rows(&per_query[q], n_terms, TILE_H);
        let ghost (before, tile) = (t@, rows@);
        t.append(&mut rows);
        proof {
            assert forall|i: int| 0 <= i < 8 * (q + 1) implies ints((#[trigger] t@[i])@) == tq_row(
                per_query@,
                n_terms as int,
                i,
            ) by {
                if i < 8 * q {
                    assert(t@[i] == before[i]);
                } else {
                    assert(t@[i] == tile[i - 8 * q]);
                    assert(i / 8 == q && i % 8 == i - 8 * q);
                }
            }
        }
    }
    for r in 8 * nq..h
        invariant
            nq == per_query.len(),
            terms_limit(n_terms as int),
            8 * nq <= h,
            t.len() == r,
            forall|i: int|
                0 <= i < r ==> ints((#[trigger] t@[i])@) == tq_row(per_query@, n_terms as int, i),
    {
        t.push(zero_cells(QT_TERMS + 9 * n_terms));
    }
    assert(cells(t@) =~= tq_trace(per_query@, n_terms as int));
    t
}

/// Whether every query can be put into a tile with room for `n` terms.
pub fn queries_are_ok(qs: &Vec<Query>, n: usize) -> (r: bool)
    ensures
        r == queries_ok(qs@, n as int),
{
    let m: usize = qs.len();
    for i in 0..m
        invariant
            m == qs.len(),
            forall|j: int|
                #![trigger qs@[j]]
                0 <= j < i ==> query_ok(qs@[j], 10) && qs@[j].terms.len() <= n,
    {
        if !query_is_ok(&qs[i], DP_LOG_HEIGHT) || qs[i].terms.len() > n {
            assert(!(query_ok(qs@[i as int], 10) && qs@[i as int].terms.len() <= n));
            return false;
        }
    }
    true
}

/// Fills the trace of a list of queries, unless one of them cannot be put into a tile.
pub fn try_tq_build_trace(n_terms: usize, per_query: &Vec<Query>) -> (r: Option<Trace>)
    requires
        terms_limit(n_terms as int),
        np2(8 * per_query.len()) <= usize::MAX,
    ensures
        r is Some <==> queries_ok(per_query@, n_terms as int),
        r matches Some(t) ==> cells(t@) == tq_trace(per_query@, n_terms as int),
{
    if queries_are_ok(per_query, n_terms) {
        Some(tq_build_trace(n_terms, per_query))
    } else {
        None
    }
}

/// Whether a query is accepted: its chain starts from its reduced opening, and ends in the given
/// evaluation after the rows of its tile.
pub open spec fn accepted(q: Query, end: (int, int)) -> bool {
    &&& econg(q.ro@, opening_of(q.terms@, point_z(q.index as int, 10), q.alpha@))
    &&& econg(end, running(q.ro@, q.rounds@, 7))
}

/// What the constraints demand of row `r` of the trace of queries.
spec fn tile_demand(qs: Seq<Query>, end: (int, int), r: int) -> bool {
    let q = qs[r / 8];
    &&& r % 8 == 0 ==> econg(q.ro@, opening_of(q.terms@, point_z(q.index as int, 10), q.alpha@))
    &&& r % 8 == 7 ==> econg(end, running(q.ro@, q.rounds@, 7))
}

proof fn lemma_tile_demand(qs: Seq<Query>, n: int, pv: Seq<int>, r: int)
    requires
        np2(8 * qs.len() as int) == 8 * qs.len(),
        terms_limit(n),
        queries_ok(qs, n),
        forall|i: int| 0 <= i < qs.len() ==> (#[trigger] qs[i]).terms.len() == n,
        0 <= r < 8 * qs.len(),
    ensures
        holds(
            tq_polys(row_env(tq_trace(qs, n), tq_cols(qs.len() as int), pv, r), n),
            r,
            8 * qs.len() as int,
        ) <==> tile_demand(qs, pair(pv, 0), r),
{
    let nq = qs.len() as int;
    let t = tq_trace(qs, n);
    let h = 8 * nq;
    let env = row_env(t, tq_cols(nq), pv, r);
    let (k, j) = (r / 8, r % 8);
    let q = qs[k];
    assert(query_ok(q, 10) && q.terms.len() == n);
    lemma_tq_env(t, pv, nq, r);
    lemma_tq_holds(env, n, r, h);
    assert(hot_z(r, 0, 8, nq, 0) == (if j == 0 { 1int } else { 0int }));
    assert(hot_z(r, 0, 8, nq, 7) == (if j == 7 { 1int } else { 0int }));
    lemma_tile_row(q, n, j);
    assert(t[r] == tile_row(q, n, j));
    if j == 0 {
        lemma_tile_head(t[r], q);
        assert(running(q.ro@, q.rounds@, 0) == q.ro@);
    }
    if j < 7 {
        lemma_tile_row(q, n, j + 1);
        assert((r + 1) / 8 == k && (r + 1) % 8 == j + 1);
        assert(t[r + 1] == tile_row(q, n, j + 1));
        lemma_chain_complete(q.ro@, q.rounds@, j, t[r], t[r + 1]);
    }
}

/// The trace of a power-of-two number of queries meets the constraints exactly where every query is
/// accepted.
pub proof fn law_tiled_query_complete(qs: Seq<Query>, n: int, pv: Seq<int>)
    requires
        is_pow2(qs.len() as int),
        terms_limit(n),
        queries_ok(qs, n),
        forall|i: int| 0 <= i < qs.len() ==> (#[trigger] qs[i]).terms.len() == n,
    ensures
        satisfied(
            |env: Env| tq_polys(env, n),
            tq_trace(qs, n),
            tq_cols(qs.len() as int),
            pv,
        ) <==> forall|i: int| 0 <= i < qs.len() ==> accepted(#[trigger] qs[i], pair(pv, 0)),
{
    let nq = qs.len() as int;
    let t = tq_trace(qs, n);
    let polys = |env: Env| tq_polys(env, n);
    let h = t.len() as int;
    assert(is_pow2(8 * nq)) by {
        reveal_with_fuel(is_pow2, 4);
        assert(8 * nq / 2 == 4 * nq && 4 * nq / 2 == 2 * nq && 2 * nq / 2 == nq);
    }
    lemma_np2_pow2(8 * nq);
    assert(h == 8 * nq);
    if satisfied(polys, t, tq_cols(nq), pv) {
        assert forall|i: int| 0 <= i < qs.len() implies accepted(#[trigger] qs[i], pair(pv, 0)) by {
            let (a, b) = (8 * i, 8 * i + 7);
            assert(holds(polys(row_env(t, tq_cols(nq), pv, a)), a, h));
            assert(holds(polys(row_env(t, tq_cols(nq), pv, b)), b, h));
            lemma_tile_demand(qs, n, pv, a);
            lemma_tile_demand(qs, n, pv, b);
            assert(a / 8 == i && a % 8 == 0 && b / 8 == i && b % 8 == 7);
        }
    }
    if forall|i: int| 0 <= i < qs.len() ==> accepted(#[trigger] qs[i], pair(pv, 0)) {
        assert forall|r: int|
            #![trigger row_env(t, tq_cols(nq), pv, r)]
            0 <= r < h implies holds(polys(row_env(t, tq_cols(nq), pv, r)), r, h) by {
            assert(accepted(qs[r / 8], pair(pv, 0)));
            lemma_tile_demand(qs, n, pv, r);
        }
    }
}

} // verus!
