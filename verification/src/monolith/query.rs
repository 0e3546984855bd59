//! The arithmetic of a query as constraint systems: its evaluation point, its reduced opening, its
//! fold chain, and tiles that chain the three.
use super::cells::{
    acc_cells, acc_row, bit_cells, bit_row, extend, inverse_at, off_points, point_z, power_z, Term,
};
use super::parts::DP_LOG_HEIGHT;
use crate::expr::{
    cells, cst, cur, denote, emit, emit_all, Constraint, Env, Expr, ExtExpr, gated, Gate, holds,
    lemma_holds_concat, lemma_holds_gated, lemma_holds_push, pair, pis, row_env, satisfied, Trace,
};
use crate::field::{
    emul, eone, ered, ints, is_einverse, lemma_cong_diff, lemma_einv, red, Challenge, GENERATOR,
};
use crate::gadget_laws::{
    col_pxs, col_pzs, col_zs, law_deep_point, law_reduced_opening, lemma_deep_complete,
    lemma_opening_complete, number, reduced_z,
};
use crate::gadgets::{
    apow_exprs, apow_polys, bit_exprs, bits_z, deep_exprs, deep_polys, inv_exprs, inv_polys,
    ro_expr, ro_z, terms_fit, TermAt,
};
use vstd::prelude::*;

verus! {

/// `n` copies of a row.
pub open spec fn repeated(row: Seq<int>, n: int) -> Seq<Seq<int>> {
    Seq::new(n as nat, |r: int| row)
}

/// `n` copies of a row.
pub fn repeat_row(row: &Vec<u64>, n: usize) -> (t: Trace)
    ensures
        cells(t@) == repeated(ints(row@), n as int),
{
    let mut t: Trace = Vec::new();
    for r in 0..n
        invariant
            t.len() == r,
            forall|i: int| 0 <= i < r ==> ints((#[trigger] t@[i])@) == ints(row@),
    {
        let mut copy: Vec<u64> = Vec::new();
        extend(&mut copy, row);
        assert(ints(copy@) =~= ints(row@));
        t.push(copy);
    }
    assert(cells(t@) =~= repeated(ints(row@), n as int));
    t
}

/// The rows of a trace that a single row fills.
pub const ROWS: usize = 8;

// The evaluation point.

/// Columns: the index bits, then the products.
pub const DP_ACC: usize = 10;

pub const DP_WIDTH: usize = 20;

/// The evaluation point of an index, checked on the first row. The public value is the point.
pub struct DeepPointAir;

pub open spec fn dp_polys(env: Env) -> Seq<(Gate, int)> {
    (gated(Gate::First, bits_z(env.cur, 0, 10)) + gated(
        Gate::First,
        deep_polys(env.cur, 0, 10, 10),
    )).push((Gate::First, (GENERATOR as int) * env.cur[19] - env.pis[0]))
}

impl DeepPointAir {
    pub fn width(&self) -> (r: usize)
        ensures
            r == DP_WIDTH,
    {
        DP_WIDTH
    }

    pub fn num_public_values(&self) -> (r: usize)
        ensures
            r == 1,
    {
        1
    }

    pub fn eval(&self) -> (r: Vec<Constraint>)
        ensures
            forall|env: Env| #[trigger] denote(r@, env) == dp_polys(env),
    {
        let mut out: Vec<Constraint> = Vec::new();
        let bits: Vec<Expr> = bit_exprs(0, DP_LOG_HEIGHT);
        emit_all(&mut out, Gate::First, &bits);
        let chain: Vec<Expr> = deep_exprs(0, DP_ACC, DP_LOG_HEIGHT);
        emit_all(&mut out, Gate::First, &chain);
        emit(
            &mut out,
            Gate::First,
            cst(GENERATOR).times(&cur(DP_ACC + DP_LOG_HEIGHT - 1)).minus(&pis(0)),
        );
        proof {
            assert forall|env: Env| #[trigger] denote(out@, env) == dp_polys(env) by {
                assert(denote(out@, env) =~= dp_polys(env));
            }
        }
        out
    }
}

/// The row of index `v`.
pub open spec fn dp_row(v: int) -> Seq<int> {
    bit_cells(v, 10) + acc_cells(v, 10)
}

/// Fills the trace of an index.
pub fn dp_build_trace(index: u64) -> (t: Trace)
    ensures
        cells(t@) == repeated(dp_row(index as int), ROWS as int),
{
    let mut row: Vec<u64> = bit_row(index, DP_LOG_HEIGHT);
    let (acc, _x) = acc_row(index, DP_LOG_HEIGHT);
    extend(&mut row, &acc);
    repeat_row(&row, ROWS)
}

/// Whatever trace meets the constraints, the public value is the evaluation point of the index that
/// its first row holds.
pub proof fn law_deep_point_sound(t: Seq<Seq<int>>, x: int)
    requires
        t.len() > 0,
        satisfied(|env: Env| dp_polys(env), t, Seq::empty(), seq![x]),
    ensures
        red(x) == point_z(number(t[0], 0, 10), 10),
{
    let pv = seq![x];
    let env = row_env(t, Seq::empty(), pv, 0);
    let h = t.len() as int;
    let polys = |env: Env| dp_polys(env);
    assert(holds(polys(env), 0, h));
    let (b, d) = (bits_z(env.cur, 0, 10), deep_polys(env.cur, 0, 10, 10));
    let last = (Gate::First, (GENERATOR as int) * env.cur[19] - env.pis[0]);
    lemma_holds_push(gated(Gate::First, b) + gated(Gate::First, d), last, 0, h);
    lemma_holds_concat(gated(Gate::First, b), gated(Gate::First, d), 0, h);
    lemma_holds_gated(Gate::First, b, 0, h);
    lemma_holds_gated(Gate::First, d, 0, h);
    law_deep_point(t[0], 0, 10, 10);
    lemma_cong_diff((GENERATOR as int) * t[0][19], x);
}

/// The trace of an index meets the constraints exactly for its evaluation point.
pub proof fn law_deep_point_complete(v: int, x: int)
    requires
        v >= 0,
    ensures
        satisfied(
            |env: Env| dp_polys(env),
            repeated(dp_row(v), ROWS as int),
            Seq::empty(),
            seq![x],
        ) <==> red(x) == point_z(v, 10),
{
    let t = repeated(dp_row(v), ROWS as int);
    let pv = seq![x];
    let h = t.len() as int;
    let polys = |env: Env| dp_polys(env);
    let row = dp_row(v);
    lemma_deep_complete(row, 0, 10, 10, v);
    let (b, d) = (bits_z(row, 0, 10), deep_polys(row, 0, 10, 10));
    let g = (GENERATOR as int) * row[19];
    let last = (Gate::First, g - x);
    lemma_cong_diff(g, x);
    assert(row[19] == acc_cells(v, 10)[9]);
    assert forall|r: int|
        #![trigger row_env(t, Seq::empty(), pv, r)]
        0 <= r < t.len() implies (holds(polys(row_env(t, Seq::empty(), pv, r)), r, h) <==> (r == 0
        ==> red(x) == point_z(v, 10))) by {
        lemma_holds_push(gated(Gate::First, b) + gated(Gate::First, d), last, r, h);
        lemma_holds_concat(gated(Gate::First, b), gated(Gate::First, d), r, h);
        lemma_holds_gated(Gate::First, b, r, h);
        lemma_holds_gated(Gate::First, d, r, h);
    }
    if satisfied(polys, t, Seq::empty(), pv) {
        assert(holds(polys(row_env(t, Seq::empty(), pv, 0)), 0, h));
    }
}

// The reduced opening.

/// A reduced opening of `n_terms` terms, checked on the first row. The public values are the
/// opening.
pub struct MroAir {
    pub n_terms: usize,
}

/// The columns of term `k`: all opening points first, then all claimed values, and so on.
pub open spec fn mro_term(n: int, k: int) -> TermAt {
    TermAt {
        z: (3 + 2 * k) as usize,
        pz: (3 + 2 * n + 2 * k) as usize,
        px: (3 + 4 * n + k) as usize,
        inv: (3 + 5 * n + 2 * k) as usize,
        apow: (3 + 7 * n + 2 * k) as usize,
    }
}

pub open spec fn mro_terms(n: int) -> Seq<TermAt> {
    Seq::new(n as nat, |k: int| mro_term(n, k))
}

pub open spec fn mro_polys(env: Env, n: int) -> Seq<(Gate, int)> {
    let cols = mro_terms(n);
    let ro = ro_z(env.cur, cols, cols.len());
    (gated(Gate::First, apow_polys(env.cur, 1, cols)) + gated(
        Gate::First,
        inv_polys(env.cur, env.cur[0], cols),
    )).push((Gate::First, ro.0 - env.pis[0])).push((Gate::First, ro.1 - env.pis[1]))
}

impl MroAir {
    /// There is a term, and every column can be addressed.
    pub open spec fn wf(self) -> bool {
        1 <= self.n_terms && 9 * self.n_terms + 4 <= usize::MAX
    }

    pub fn w(&self) -> (r: usize)
        requires
            self.wf(),
        ensures
            r == 3 + 9 * self.n_terms,
    {
        3 + 9 * self.n_terms
    }

    pub fn width(&self) -> (r: usize)
        requires
            self.wf(),
        ensures
            r == 3 + 9 * self.n_terms,
    {
        self.w()
    }

    pub fn num_public_values(&self) -> (r: usize)
        ensures
            r == 2,
    {
        2
    }

    fn terms(&self) -> (r: Vec<TermAt>)
        requires
            self.wf(),
        ensures
            r@ == mro_terms(self.n_terms as int),
            terms_fit(r@),
    {
        let n: usize = self.n_terms;
        let mut r: Vec<TermAt> = Vec::new();
        for k in 0..n
            invariant
                9 * n + 4 <= usize::MAX,
                r.len() == k,
                forall|j: int| 0 <= j < k ==> #[trigger] r@[j] == mro_term(n as int, j),
                terms_fit(r@),
        {
            r.push(
                TermAt {
                    z: 3 + 2 * k,
                    pz: 3 + 2 * n + 2 * k,
                    px: 3 + 4 * n + k,
                    inv: 3 + 5 * n + 2 * k,
                    apow: 3 + 7 * n + 2 * k,
                },
            );
        }
        assert(r@ =~= mro_terms(n as int));
        r
    }

    pub fn eval(&self) -> (r: Vec<Constraint>)
        requires
            self.wf(),
        ensures
            forall|env: Env| #[trigger] denote(r@, env) == mro_polys(env, self.n_terms as int),
    {
        let cols: Vec<TermAt> = self.terms();
        let mut out: Vec<Constraint> = Vec::new();
        first_opening(&mut out, 1, &cur(0), &cols);
        let ro: ExtExpr = ro_expr(&cols);
        emit(&mut out, Gate::First, ro.c0.minus(&pis(0)));
        emit(&mut out, Gate::First, ro.c1.minus(&pis(1)));
        proof {
            assert forall|env: Env| #[trigger]
                denote(out@, env) == mro_polys(env, self.n_terms as int) by {
                assert(ro.val(env) == ro_z(env.cur, cols@, cols@.len()));
                assert(denote(out@, env) =~= mro_polys(env, self.n_terms as int));
            }
        }
        out
    }
}

/// The powers and the inverses of a reduced opening, on the first row.
fn first_opening(out: &mut Vec<Constraint>, alpha: usize, x: &Expr, cols: &Vec<TermAt>)
    requires
        terms_fit(cols@),
        alpha < usize::MAX,
    ensures
        forall|env: Env|
            #[trigger] denote(final(out)@, env) == denote(old(out)@, env) + gated(
                Gate::First,
                apow_polys(env.cur, alpha as int, cols@),
            ) + gated(Gate::First, inv_polys(env.cur, x.val(env), cols@)),
{
    let powers: Vec<Expr> = apow_exprs(alpha, cols);
    emit_all(out, Gate::First, &powers);
    let inverses: Vec<Expr> = inv_exprs(x, cols);
    emit_all(out, Gate::First, &inverses);
}

/// The reduced opening that the columns of a row call for.
pub open spec fn row_opening(row: Seq<int>, alpha: int, x: int, cols: Seq<TermAt>) -> (int, int) {
    reduced_z(
        col_zs(row, cols),
        col_pzs(row, cols),
        col_pxs(row, cols),
        x,
        pair(row, alpha),
        cols.len(),
    )
}

/// Whatever trace meets the constraints, the public values are the reduced opening of the terms that
/// its first row holds.
pub proof fn law_mro_sound(t: Seq<Seq<int>>, n: int, ro: (int, int))
    requires
        t.len() > 0,
        n >= 0,
        satisfied(|env: Env| mro_polys(env, n), t, Seq::empty(), seq![ro.0, ro.1]),
    ensures
        ered(ro) == row_opening(t[0], 1, t[0][0], mro_terms(n)),
{
    let pv = seq![ro.0, ro.1];
    let env = row_env(t, Seq::empty(), pv, 0);
    let h = t.len() as int;
    let polys = |env: Env| mro_polys(env, n);
    assert(holds(polys(env), 0, h));
    let cols = mro_terms(n);
    let z = ro_z(env.cur, cols, cols.len());
    let (a, i) = (apow_polys(env.cur, 1, cols), inv_polys(env.cur, env.cur[0], cols));
    let base = gated(Gate::First, a) + gated(Gate::First, i);
    let (l0, l1) = ((Gate::First, z.0 - env.pis[0]), (Gate::First, z.1 - env.pis[1]));
    lemma_holds_push(base.push(l0), l1, 0, h);
    lemma_holds_push(base, l0, 0, h);
    lemma_holds_concat(gated(Gate::First, a), gated(Gate::First, i), 0, h);
    lemma_holds_gated(Gate::First, a, 0, h);
    lemma_holds_gated(Gate::First, i, 0, h);
    law_reduced_opening(t[0], 1, t[0][0], cols, cols.len());
    lemma_cong_diff(z.0, ro.0);
    lemma_cong_diff(z.1, ro.1);
}

/// The cells of a row: the point, the challenge, then the columns of each kind.
pub open spec fn mro_row(terms: Seq<Term>, x: int, alpha: (int, int)) -> Seq<int> {
    let n = terms.len();
    Seq::new(
        3 + 9 * n,
        |c: int|
            if c == 0 {
                x
            } else if c < 3 {
                if c == 1 {
                    alpha.0
                } else {
                    alpha.1
                }
            } else if c < 3 + 2 * n {
                half_of(terms[(c - 3) / 2].z@, (c - 3) % 2)
            } else if c < 3 + 4 * n {
                half_of(terms[(c - 3 - 2 * n) / 2].pz@, (c - 3 - 2 * n) % 2)
            } else if c < 3 + 5 * n {
                terms[c - 3 - 4 * n].px as int
            } else if c < 3 + 7 * n {
                half_of(
                    super::cells::inv_at(terms[(c - 3 - 5 * n) / 2].z@, x),
                    (c - 3 - 5 * n) % 2,
                )
            } else {
                half_of(power_z(alpha, ((c - 3 - 7 * n) / 2) as nat), (c - 3 - 7 * n) % 2)
            },
    )
}

/// One of the two coefficients.
pub open spec fn half_of(x: (int, int), i: int) -> int {
    if i == 0 {
        x.0
    } else {
        x.1
    }
}

/// Fills the trace of a reduced opening.
pub fn mro_build_trace(terms: &Vec<Term>, x: u64, alpha: Challenge) -> (t: Trace)
    requires
        9 * terms.len() + 4 <= usize::MAX,
        off_points(terms@, x as int),
    ensures
        cells(t@) == repeated(mro_row(terms@, x as int, alpha@), ROWS as int),
{
    let n: usize = terms.len();
    let mut zs: Vec<u64> = Vec::new();
    let mut pzs: Vec<u64> = Vec::new();
    let mut pxs: Vec<u64> = Vec::new();
    let mut is: Vec<u64> = Vec::new();
    let mut aps: Vec<u64> = Vec::new();
    let mut power: Challenge = eone();
    for k in 0..n
        invariant
            n == terms.len(),
            off_points(terms@, x as int),
            power@ == power_z(alpha@, k as nat),
            zs.len() == 2 * k,
            pzs.len() == 2 * k,
            pxs.len() == k,
            is.len() == 2 * k,
            aps.len() == 2 * k,
            forall|j: int| 0 <= j < 2 * k ==> #[trigger] zs@[j] == half_of(terms@[j / 2].z@, j % 2),
            forall|j: int|
                0 <= j < 2 * k ==> #[trigger] pzs@[j] == half_of(terms@[j / 2].pz@, j % 2),
            forall|j: int| 0 <= j < k ==> #[trigger] pxs@[j] == terms@[j].px,
            forall|j: int|
                0 <= j < 2 * k ==> #[trigger] is@[j] == half_of(
                    super::cells::inv_at(terms@[j / 2].z@, x as int),
                    j % 2,
                ),
            forall|j: int|
                0 <= j < 2 * k ==> #[trigger] aps@[j] == half_of(
                    power_z(alpha@, (j / 2) as nat),
                    j % 2,
                ),
    {
        let t: Term = terms[k];
        let i: Challenge = inverse_at(t.z, x);
        zs.push(t.z.c0);
        zs.push(t.z.c1);
        pzs.push(t.pz.c0);
        pzs.push(t.pz.c1);
        pxs.push(t.px);
        is.push(i.c0);
        is.push(i.c1);
        aps.push(power.c0);
        aps.push(power.c1);
        power = emul(power, alpha);
    }
    let mut row: Vec<u64> = vec![x, alpha.c0, alpha.c1];
    extend(&mut row, &zs);
    extend(&mut row, &pzs);
    extend(&mut row, &pxs);
    extend(&mut row, &is);
    extend(&mut row, &aps);
    assert(ints(row@) =~= mro_row(terms@, x as int, alpha@));
    repeat_row(&row, ROWS)
}

/// The terms of a query as sequences.
pub open spec fn term_zs(terms: Seq<Term>) -> Seq<(int, int)> {
    Seq::new(terms.len(), |k: int| terms[k].z@)
}

pub open spec fn term_pzs(terms: Seq<Term>) -> Seq<(int, int)> {
    Seq::new(terms.len(), |k: int| terms[k].pz@)
}

pub open spec fn term_pxs(terms: Seq<Term>) -> Seq<int> {
    Seq::new(terms.len(), |k: int| terms[k].px as int)
}

/// The reduced opening of a list of terms.
pub open spec fn opening_of(terms: Seq<Term>, x: int, alpha: (int, int)) -> (int, int) {
    reduced_z(term_zs(terms), term_pzs(terms), term_pxs(terms), x, alpha, terms.len())
}

/// A point that is not the evaluation point has an inverse of the difference.
pub proof fn lemma_inv_at(z: (int, int), x: int)
    requires
        ered((z.0 - x, z.1)) != (0int, 0int),
    ensures
        is_einverse((z.0 - x, z.1), super::cells::inv_at(z, x)),
{
    let d = (z.0 - x, z.1);
    let i = crate::prime::law_einverse_exists(d);
    lemma_einv(d, i);
}

/// The trace of a reduced opening meets the constraints exactly for that opening.
pub proof fn law_mro_complete(terms: Seq<Term>, x: int, alpha: (int, int), ro: (int, int))
    requires
        9 * terms.len() + 4 <= usize::MAX,
        off_points(terms, x),
    ensures
        satisfied(
            |env: Env| mro_polys(env, terms.len() as int),
            repeated(mro_row(terms, x, alpha), ROWS as int),
            Seq::empty(),
            seq![ro.0, ro.1],
        ) <==> ered(ro) == opening_of(terms, x, alpha),
{
    let n = terms.len() as int;
    let row = mro_row(terms, x, alpha);
    let t = repeated(row, ROWS as int);
    let pv = seq![ro.0, ro.1];
    let h = t.len() as int;
    let polys = |env: Env| mro_polys(env, n);
    let cols = mro_terms(n);
    assert forall|k: int|
        #![trigger cols[k]]
        0 <= k < cols.len() implies pair(row, cols[k].apow as int) == power_z(
        pair(row, 1),
        k as nat,
    ) && is_einverse(
        (pair(row, cols[k].z as int).0 - x, pair(row, cols[k].z as int).1),
        pair(row, cols[k].inv as int),
    ) && pair(row, cols[k].z as int) == terms[k].z@ && pair(row, cols[k].pz as int) == terms[k].pz@
        && row[cols[k].px as int] == terms[k].px by {
        let c = cols[k];
        assert(c == mro_term(n, k));
        assert((c.z - 3) / 2 == k && (c.z - 3) % 2 == 0 && (c.z + 1 - 3) / 2 == k && (c.z + 1 - 3) % 2
            == 1);
        let p = c.pz - 3 - 2 * n;
        assert(p / 2 == k && p % 2 == 0 && (p + 1) / 2 == k && (p + 1) % 2 == 1);
        let i = c.inv - 3 - 5 * n;
        assert(i / 2 == k && i % 2 == 0 && (i + 1) / 2 == k && (i + 1) % 2 == 1);
        let a = c.apow - 3 - 7 * n;
        assert(a / 2 == k && a % 2 == 0 && (a + 1) / 2 == k && (a + 1) % 2 == 1);
        assert(pair(row, c.z as int) == terms[k].z@);
        lemma_inv_at(terms[k].z@, x);
        assert(pair(row, c.inv as int) == super::cells::inv_at(terms[k].z@, x));
        assert(pair(row, 1) == alpha);
    }
    assert forall|k: int| 0 <= k < n implies pair(row, (#[trigger] cols[k]).z as int) == terms[k].z@ by {}
    assert(col_zs(row, cols) =~= term_zs(terms));
    assert(col_pzs(row, cols) =~= term_pzs(terms));
    assert(col_pxs(row, cols) =~= term_pxs(terms));
    assert(pair(row, 1) == alpha && row[0] == x);
    lemma_opening_complete(row, 1, x, cols);
    law_reduced_opening(row, 1, x, cols, cols.len());
    let z = ro_z(row, cols, cols.len());
    let (a, i) = (apow_polys(row, 1, cols), inv_polys(row, x, cols));
    let base = gated(Gate::First, a) + gated(Gate::First, i);
    let (l0, l1) = ((Gate::First, z.0 - ro.0), (Gate::First, z.1 - ro.1));
    lemma_cong_diff(z.0, ro.0);
    lemma_cong_diff(z.1, ro.1);
    assert forall|r: int|
        #![trigger row_env(t, Seq::empty(), pv, r)]
        0 <= r < t.len() implies (holds(polys(row_env(t, Seq::empty(), pv, r)), r, h) <==> (r == 0
        ==> ered(ro) == opening_of(terms, x, alpha))) by {
        lemma_holds_push(base.push(l0), l1, r, h);
        lemma_holds_push(base, l0, r, h);
        lemma_holds_concat(gated(Gate::First, a), gated(Gate::First, i), r, h);
        lemma_holds_gated(Gate::First, a, r, h);
        lemma_holds_gated(Gate::First, i, r, h);
    }
    if satisfied(polys, t, Seq::empty(), pv) {
        assert(holds(polys(row_env(t, Seq::empty(), pv, 0)), 0, h));
    }
}

} // verus!
