//! Runs of constraints that the tiled systems have in common. Each function appends to a list; the
//! spec function beside it says what list comes out.
use crate::expr::{
    cst, cur, denote, emit, emit_all, Constraint, Env, Expr, ExtExpr, gated, Gate, nxt, per, pis,
    scale_all, scaled, vals,
};
use crate::field::GENERATOR;
use crate::gadgets::{
    apow_exprs, apow_polys, bind_exprs, bind_polys, bit_exprs, bits_z, canon_exprs, canon_polys,
    deep_exprs, deep_polys, fold_exprs, fold_polys, index_bind_exprs, index_bind_polys, inv_exprs,
    inv_polys, recon_expr, recon_z, ro_expr, ro_z, sponge_link, sponge_link_exprs, sponge_start,
    sponge_start_exprs, terms_fit, TermAt, FT_BIND_START, FT_COUNT, F_B, F_BIT, F_E,
};
use crate::poseidon2::{lanes, round_exprs, round_polys};
use vstd::prelude::*;

verus! {

/// The number of index bits of a query in the fixed geometry.
pub const DP_LOG_HEIGHT: usize = 10;

/// Columns of a query tile behind those of the fold chain: index bits, product chain, combination
/// challenge, terms.
pub const QT_DBITS: usize = 9;

pub const QT_ACC: usize = 19;

pub const QT_ALPHA: usize = 29;

pub const QT_TERMS: usize = 31;

/// The columns of term `k` where the terms stand one after the other from column `base` on.
pub open spec fn term_at(base: int, k: int) -> TermAt {
    TermAt {
        z: (base + 9 * k) as usize,
        pz: (base + 9 * k + 2) as usize,
        px: (base + 9 * k + 4) as usize,
        inv: (base + 9 * k + 5) as usize,
        apow: (base + 9 * k + 7) as usize,
    }
}

/// The columns of `n` terms that stand one after the other from column `base` on.
pub open spec fn strided(base: int, n: int) -> Seq<TermAt> {
    Seq::new(n as nat, |k: int| term_at(base, k))
}

/// The columns of the `n` terms of a tile.
pub open spec fn tile_terms(n: int) -> Seq<TermAt> {
    strided(QT_TERMS as int, n)
}

/// The columns of `n` terms, and of what stands behind them, can be addressed.
pub open spec fn terms_limit(n: int) -> bool {
    9 * n + 300 <= usize::MAX
}

/// The columns of `n` terms from column `base` on.
pub fn term_cols(base: usize, n: usize) -> (r: Vec<TermAt>)
    requires
        base + 9 * n < usize::MAX,
    ensures
        r@ == strided(base as int, n as int),
        terms_fit(r@),
{
    let mut r: Vec<TermAt> = Vec::new();
    for k in 0..n
        invariant
            base + 9 * n < usize::MAX,
            r.len() == k,
            forall|j: int| 0 <= j < k ==> #[trigger] r@[j] == term_at(base as int, j),
            terms_fit(r@),
    {
        let z: usize = base + 9 * k;
        r.push(TermAt { z, pz: z + 2, px: z + 4, inv: z + 5, apow: z + 7 });
    }
    assert(r@ =~= strided(base as int, n as int));
    r
}

/// Rounds, start, links and bindings of the transcript sponge.
pub open spec fn transcript_list(
    acc: Seq<(Gate, int)>,
    env: Env,
    rounds_on: int,
    links_on: int,
    nb: int,
    index_binds: Seq<(usize, usize)>,
) -> Seq<(Gate, int)> {
    acc + gated(
        Gate::Transition,
        scaled(rounds_on, round_polys(lanes(env.cur, 0), lanes(env.nxt, 0), env.per)),
    ) + gated(Gate::First, sponge_start(env.cur, env.per[FT_COUNT as int])) + gated(
        Gate::Transition,
        scaled(links_on, sponge_link(env.cur, env.nxt, env.per)),
    ) + gated(Gate::Always, bind_polys(env.cur, env.per, env.pis, nb)) + gated(
        Gate::Always,
        index_bind_polys(env.cur, env.per, env.pis, nb, index_binds),
    )
}

pub fn transcript_part(
    out: &mut Vec<Constraint>,
    rounds_on: &Expr,
    links_on: &Expr,
    nb: usize,
    index_binds: &Vec<(usize, usize)>,
)
    requires
        2 * nb + index_binds.len() + FT_BIND_START <= usize::MAX,
    ensures
        forall|env: Env|
            #[trigger] denote(final(out)@, env) == transcript_list(
                denote(old(out)@, env),
                env,
                rounds_on.val(env),
                links_on.val(env),
                nb as int,
                index_binds@,
            ),
{
    let rounds: Vec<Expr> = scale_all(rounds_on, &round_exprs(0));
    emit_all(out, Gate::Transition, &rounds);
    let start: Vec<Expr> = sponge_start_exprs(&per(FT_COUNT));
    emit_all(out, Gate::First, &start);
    let links: Vec<Expr> = scale_all(links_on, &sponge_link_exprs());
    emit_all(out, Gate::Transition, &links);
    let binds: Vec<Expr> = bind_exprs(nb);
    emit_all(out, Gate::Always, &binds);
    let index: Vec<Expr> = index_bind_exprs(nb, index_binds);
    emit_all(out, Gate::Always, &index);
}

/// The challenge that the tiles read: held on every row, and the last two rate lanes, from the
/// back, on the output row of the block that squeezes it.
pub open spec fn carrier_list(acc: Seq<(Gate, int)>, env: Env, carry: int) -> Seq<(Gate, int)> {
    let bind = env.per[FT_BIND_START + 2];
    acc.push((Gate::Transition, env.nxt[carry] - env.cur[carry])).push(
        (Gate::Transition, env.nxt[carry + 1] - env.cur[carry + 1]),
    ).push((Gate::Always, bind * (env.cur[carry] - env.cur[3]))).push(
        (Gate::Always, bind * (env.cur[carry + 1] - env.cur[2])),
    )
}

pub fn carrier_part(out: &mut Vec<Constraint>, carry: usize)
    requires
        carry < usize::MAX,
    ensures
        forall|env: Env|
            #[trigger] denote(final(out)@, env) == carrier_list(
                denote(old(out)@, env),
                env,
                carry as int,
            ),
{
    let bind: Expr = per(FT_BIND_START + 2);
    emit(out, Gate::Transition, nxt(carry).minus(&cur(carry)));
    emit(out, Gate::Transition, nxt(carry + 1).minus(&cur(carry + 1)));
    emit(out, Gate::Always, bind.times(&cur(carry).minus(&cur(3))));
    emit(out, Gate::Always, bind.times(&cur(carry + 1).minus(&cur(2))));
}

/// The evaluation point that the product chain of a tile ends in.
pub open spec fn tile_point(row: Seq<int>) -> int {
    (GENERATOR as int) * row[QT_ACC + DP_LOG_HEIGHT - 1]
}

/// The index bits and the product chain of a tile.
pub open spec fn point_list(acc: Seq<(Gate, int)>, env: Env, on: int) -> Seq<(Gate, int)> {
    acc + gated(Gate::Always, scaled(on, bits_z(env.cur, QT_DBITS as int, DP_LOG_HEIGHT as int)))
        + gated(
        Gate::Always,
        scaled(on, deep_polys(env.cur, QT_DBITS as int, QT_ACC as int, DP_LOG_HEIGHT as int)),
    )
}

pub fn point_part(out: &mut Vec<Constraint>, on: &Expr)
    ensures
        forall|env: Env|
            #[trigger] denote(final(out)@, env) == point_list(
                denote(old(out)@, env),
                env,
                on.val(env),
            ),
{
    let bits: Vec<Expr> = scale_all(on, &bit_exprs(QT_DBITS, DP_LOG_HEIGHT));
    emit_all(out, Gate::Always, &bits);
    let chain: Vec<Expr> = scale_all(on, &deep_exprs(QT_DBITS, QT_ACC, DP_LOG_HEIGHT));
    emit_all(out, Gate::Always, &chain);
}

/// The reduced opening of a tile, and that the fold chain starts from it.
pub open spec fn opening_list(
    acc: Seq<(Gate, int)>,
    env: Env,
    on: int,
    n_terms: int,
) -> Seq<(Gate, int)> {
    let cols = tile_terms(n_terms);
    let ro = ro_z(env.cur, cols, cols.len());
    (acc + gated(Gate::Always, scaled(on, apow_polys(env.cur, QT_ALPHA as int, cols))) + gated(
        Gate::Always,
        scaled(on, inv_polys(env.cur, tile_point(env.cur), cols)),
    )).push((Gate::Always, on * (env.cur[0] - ro.0))).push(
        (Gate::Always, on * (env.cur[1] - ro.1)),
    )
}

pub fn opening_part(out: &mut Vec<Constraint>, on: &Expr, n_terms: usize)
    requires
        terms_limit(n_terms as int),
    ensures
        forall|env: Env|
            #[trigger] denote(final(out)@, env) == opening_list(
                denote(old(out)@, env),
                env,
                on.val(env),
                n_terms as int,
            ),
{
    let cols: Vec<TermAt> = term_cols(QT_TERMS, n_terms);
    let x: Expr = cst(GENERATOR).times(&cur(QT_ACC + DP_LOG_HEIGHT - 1));
    let powers: Vec<Expr> = scale_all(on, &apow_exprs(QT_ALPHA, &cols));
    emit_all(out, Gate::Always, &powers);
    let inverses: Vec<Expr> = scale_all(on, &inv_exprs(&x, &cols));
    emit_all(out, Gate::Always, &inverses);
    let ro: ExtExpr = ro_expr(&cols);
    assert forall|env: Env| (#[trigger] ro.c0.val(env)) == ro_z(env.cur, cols@, cols@.len()).0 by {
        assert(ro.val(env) == ro_z(env.cur, cols@, cols@.len()));
    }
    assert forall|env: Env| (#[trigger] ro.c1.val(env)) == ro_z(env.cur, cols@, cols@.len()).1 by {
        assert(ro.val(env) == ro_z(env.cur, cols@, cols@.len()));
    }
    emit(out, Gate::Always, on.times(&cur(F_E).minus(&ro.c0)));
    emit(out, Gate::Always, on.times(&cur(F_E + 1).minus(&ro.c1)));
}

/// The sum of `n` consecutive periodic values.
pub open spec fn per_sum(p: Seq<int>, from: int, n: nat) -> int
    decreases n,
{
    if n == 0 {
        0
    } else {
        per_sum(p, from, (n - 1) as nat) + p[from + n - 1]
    }
}

pub fn per_sum_expr(from: usize, n: usize) -> (r: Expr)
    requires
        from + n <= usize::MAX,
    ensures
        forall|env: Env| #[trigger] r.val(env) == per_sum(env.per, from as int, n as nat),
{
    let mut r: Expr = cst(0);
    for i in 0..n
        invariant
            from + n <= usize::MAX,
            forall|env: Env| #[trigger] r.val(env) == per_sum(env.per, from as int, i as nat),
    {
        r = r.plus(&per(from + i));
    }
    r
}

/// The inner product of `n` periodic values and `n` public values.
pub open spec fn per_select(p: Seq<int>, from: int, v: Seq<int>, at: int, n: nat) -> int
    decreases n,
{
    if n == 0 {
        0
    } else {
        per_select(p, from, v, at, (n - 1) as nat) + p[from + n - 1] * v[at + n - 1]
    }
}

pub fn per_select_expr(from: usize, at: usize, n: usize) -> (r: Expr)
    requires
        from + n <= usize::MAX,
        at + n <= usize::MAX,
    ensures
        forall|env: Env|
            #[trigger] r.val(env) == per_select(
                env.per,
                from as int,
                env.pis,
                at as int,
                n as nat,
            ),
{
    let mut r: Expr = cst(0);
    for i in 0..n
        invariant
            from + n <= usize::MAX,
            at + n <= usize::MAX,
            forall|env: Env|
                #[trigger] r.val(env) == per_select(
                    env.per,
                    from as int,
                    env.pis,
                    at as int,
                    i as nat,
                ),
    {
        r = r.plus(&per(from + i).times(&pis(at + i)));
    }
    r
}

/// Binding `j / 2` of a fold challenge: on its fold row it is the challenge that the transcript
/// bound behind the first three.
pub open spec fn beta_z(env: Env, p_round: int, j: int) -> int {
    env.per[p_round + j / 2] * (env.cur[F_B + j % 2] - env.pis[6 + j])
}

pub open spec fn beta_polys(env: Env, p_round: int, n_rounds: int) -> Seq<int> {
    Seq::new((2 * n_rounds) as nat, |j: int| beta_z(env, p_round, j))
}

pub fn beta_exprs(p_round: usize, n_rounds: usize) -> (r: Vec<Expr>)
    requires
        p_round + n_rounds <= usize::MAX,
        2 * n_rounds + 6 <= usize::MAX,
    ensures
        r.len() == 2 * n_rounds,
        forall|env: Env|
            #[trigger] vals(r@, env) == beta_polys(env, p_round as int, n_rounds as int),
{
    let mut r: Vec<Expr> = Vec::new();
    for k in 0..n_rounds
        invariant
            p_round + n_rounds <= usize::MAX,
            2 * n_rounds + 6 <= usize::MAX,
            r.len() == 2 * k,
            forall|j: int, env: Env|
                0 <= j < 2 * k ==> (#[trigger] r@[j].val(env)) == beta_z(env, p_round as int, j),
    {
        let b: Expr = per(p_round + k);
        r.push(b.times(&cur(F_B).minus(&pis(6 + 2 * k))));
        r.push(b.times(&cur(F_B + 1).minus(&pis(7 + 2 * k))));
    }
    proof {
        assert forall|env: Env| #[trigger]
            vals(r@, env) == beta_polys(env, p_round as int, n_rounds as int) by {
            assert(vals(r@, env) =~= beta_polys(env, p_round as int, n_rounds as int));
        }
    }
    r
}

/// The index bits of a tile are the low bits of the decomposition.
pub open spec fn low_bit_polys(row: Seq<int>, sb_b: int) -> Seq<int> {
    Seq::new(DP_LOG_HEIGHT as nat, |i: int| row[QT_DBITS + i] - row[sb_b + i])
}

fn low_bit_exprs(sb_b: usize) -> (r: Vec<Expr>)
    requires
        sb_b + DP_LOG_HEIGHT <= usize::MAX,
    ensures
        r.len() == DP_LOG_HEIGHT,
        forall|env: Env| #[trigger] vals(r@, env) == low_bit_polys(env.cur, sb_b as int),
{
    let mut r: Vec<Expr> = Vec::new();
    for i in 0..DP_LOG_HEIGHT
        invariant
            sb_b + DP_LOG_HEIGHT <= usize::MAX,
            r.len() == i,
            forall|j: int, env: Env|
                0 <= j < i ==> (#[trigger] r@[j].val(env)) == env.cur[QT_DBITS + j] - env.cur[sb_b
                    + j],
    {
        r.push(cur(QT_DBITS + i).minus(&cur(sb_b + i)));
    }
    proof {
        assert forall|env: Env| #[trigger] vals(r@, env) == low_bit_polys(env.cur, sb_b as int) by {
            assert(vals(r@, env) =~= low_bit_polys(env.cur, sb_b as int));
        }
    }
    r
}

/// The index of a query: the element at `sb_x` is the one that the transcript bound for it, it is
/// decomposed canonically, and the index bits and the shift register at `sb_x + 96` start from its
/// low bits.
pub open spec fn index_list(
    acc: Seq<(Gate, int)>,
    env: Env,
    on: int,
    selected: int,
    sb_x: int,
) -> Seq<(Gate, int)> {
    (acc.push((Gate::Always, on * env.cur[sb_x] - selected)) + gated(
        Gate::Always,
        scaled(on, canon_polys(env.cur, sb_x, sb_x + 1, sb_x + 65)),
    ) + gated(Gate::Always, scaled(on, low_bit_polys(env.cur, sb_x + 1)))).push(
        (
            Gate::Always,
            on * (env.cur[sb_x + 96] - recon_z(env.cur, sb_x + 1, DP_LOG_HEIGHT as nat)),
        ),
    )
}

pub fn index_part(out: &mut Vec<Constraint>, on: &Expr, selected: &Expr, sb_x: usize)
    requires
        sb_x + 97 <= usize::MAX,
    ensures
        forall|env: Env|
            #[trigger] denote(final(out)@, env) == index_list(
                denote(old(out)@, env),
                env,
                on.val(env),
                selected.val(env),
                sb_x as int,
            ),
{
    emit(out, Gate::Always, on.times(&cur(sb_x)).minus(selected));
    let canon: Vec<Expr> = scale_all(on, &canon_exprs(sb_x, sb_x + 1, sb_x + 65));
    emit_all(out, Gate::Always, &canon);
    let low: Vec<Expr> = scale_all(on, &low_bit_exprs(sb_x + 1));
    emit_all(out, Gate::Always, &low);
    let whole: Expr = recon_expr(sb_x + 1, DP_LOG_HEIGHT);
    emit(out, Gate::Always, on.times(&cur(sb_x + 96).minus(&whole)));
}

/// The shift register: on a fold row the remaining index loses its lowest bit, which is the slot.
pub open spec fn shift_z(env: Env, rem: int) -> int {
    env.cur[rem] - 2 * env.nxt[rem] - env.cur[F_BIT as int]
}

pub fn shift_expr(rem: usize) -> (r: Expr)
    ensures
        forall|env: Env| #[trigger] r.val(env) == shift_z(env, rem as int),
{
    cur(rem).minus(&cst(2).times(&nxt(rem))).minus(&cur(F_BIT))
}

/// The fold step where `on` is set.
pub open spec fn fold_list(acc: Seq<(Gate, int)>, env: Env, on: int) -> Seq<(Gate, int)> {
    acc + gated(Gate::Transition, scaled(on, fold_polys(env.cur, env.nxt)))
}

pub fn fold_part(out: &mut Vec<Constraint>, on: &Expr)
    ensures
        forall|env: Env|
            #[trigger] denote(final(out)@, env) == fold_list(
                denote(old(out)@, env),
                env,
                on.val(env),
            ),
{
    let fold: Vec<Expr> = scale_all(on, &fold_exprs());
    emit_all(out, Gate::Transition, &fold);
}

/// Where `on` is set the running evaluation is the pair of public values at `at`.
pub open spec fn accept_list(
    acc: Seq<(Gate, int)>,
    env: Env,
    on: int,
    at: int,
) -> Seq<(Gate, int)> {
    acc.push((Gate::Always, on * (env.cur[0] - env.pis[at]))).push(
        (Gate::Always, on * (env.cur[1] - env.pis[at + 1])),
    )
}

pub fn accept_part(out: &mut Vec<Constraint>, on: &Expr, at: usize)
    requires
        at < usize::MAX,
    ensures
        forall|env: Env|
            #[trigger] denote(final(out)@, env) == accept_list(
                denote(old(out)@, env),
                env,
                on.val(env),
                at as int,
            ),
{
    emit(out, Gate::Always, on.times(&cur(F_E).minus(&pis(at))));
    emit(out, Gate::Always, on.times(&cur(F_E + 1).minus(&pis(at + 1))));
}

} // verus!
