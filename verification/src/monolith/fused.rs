//! The fused constraint system: the transcript region and one super-tile per query.
//!
//! A super-tile has `M_NBLOCKS` blocks: the arithmetic of the query (block 0), the Merkle paths of
//! the opened trace value (blocks 1 to 5) and of the opened quotient row (6 to 10), and those of the
//! six fold groups (11 to 22). Each tile reads the challenges and the index that the transcript
//! region derives.
use super::parts::{
    accept_list, accept_part, beta_exprs, beta_polys, carrier_list, carrier_part, fold_list,
    fold_part, index_list, index_part, opening_part, per_select, per_select_expr, per_sum,
    per_sum_expr, point_part, shift_expr, shift_z, terms_limit, transcript_list, transcript_part,
    QT_ALPHA, QT_TERMS,
};
use super::region::bound_head_list;
use crate::cols::{
    count_col, count_z, hot_col, hot_z, last_col, last_z, lemma_np2, next_power_of_two, np2,
    range_col, range_z, squeeze_col, squeeze_z, tail_col, tail_z,
};
use crate::expr::{
    bit_poly, cells, cst, cur, cur_ext, denote, emit, emit_all, Constraint, Env, Expr, ExtExpr,
    gated, Gate, nxt, pair, per, pis, pis_ext, scale_all, scaled, vals,
};
use crate::field::{
    finv_z, ints, inverse, two_adic_gen, two_adic_generator, zadd, zmul, zsub, W_EXT,
};
use crate::gadgets::{bit_z, link_exprs, link_polys, FT_BIND_START, F_BIT};
use crate::poseidon2::{periodic_table, round_col, BLOCK};
use vstd::prelude::*;

verus! {

pub const M_NBLOCKS: usize = 23;

/// Rows of a super-tile.
pub const M_PERIOD: usize = 736;

/// The binary logarithm of the height of the inner trace.
pub const M_DEGREE_BITS: usize = 6;

pub const M_INPUT_LEAF: usize = 1;

pub const M_INPUT_TERM: usize = 5;

pub const M_QUOT_LEAF: usize = 6;

pub const M_QUOT_TERM: usize = 10;

pub const CM_ROUNDS: usize = 6;

/// The block that hashes the fold group of round `r`.
pub open spec fn cm_leaf_z(r: int) -> int {
    seq![11int, 15, 18, 20, 21, 22][r]
}

/// The last block of the Merkle path of round `r`.
pub open spec fn cm_term_z(r: int) -> int {
    seq![14int, 17, 19, 20, 21, 22][r]
}

pub fn cm_leaf(r: usize) -> (b: usize)
    requires
        r < CM_ROUNDS,
    ensures
        b == cm_leaf_z(r as int),
{
    let t: [usize; 6] = [11, 15, 18, 20, 21, 22];
    t[r]
}

pub fn cm_term(r: usize) -> (b: usize)
    requires
        r < CM_ROUNDS,
    ensures
        b == cm_term_z(r as int),
{
    let t: [usize; 6] = [14, 17, 19, 20, 21, 22];
    t[r]
}

/// The fused system: the absorbed counts of the transcript blocks, the blocks that squeeze the
/// bound challenges, the block and lane of each bound index, and the shape of the tiles.
#[derive(Debug)]
pub struct MonolithAir {
    pub counts: Vec<u8>,
    pub binds: Vec<usize>,
    pub index_binds: Vec<(usize, usize)>,
    pub n_queries: usize,
    pub n_terms: usize,
}

impl MonolithAir {
    /// There is a term, every column can be addressed, and the first three bound challenges are
    /// there.
    pub open spec fn wf(self) -> bool {
        &&& 1 <= self.n_terms
        &&& terms_limit(self.n_terms as int)
        &&& 2 * self.binds.len() + self.index_binds.len() + self.n_queries + 100 <= usize::MAX
        &&& self.binds.len() >= 3
    }

    pub open spec fn nb_z(self) -> int {
        self.binds.len() as int
    }

    pub open spec fn ni_z(self) -> int {
        self.index_binds.len() as int
    }

    pub open spec fn z_z(self, k: int) -> int {
        QT_TERMS + 9 * k
    }

    /// The element that is decomposed; its 64 bits and 31 products follow, then the remaining
    /// index.
    pub open spec fn sb_x_z(self) -> int {
        QT_TERMS + 9 * self.n_terms
    }

    pub open spec fn idx_rem_z(self) -> int {
        self.sb_x_z() + 96
    }

    pub open spec fn carry_z(self) -> int {
        self.idx_rem_z() + 1
    }

    pub open spec fn ov_z(self) -> int {
        self.carry_z() + 2
    }

    pub open spec fn qc_z(self, i: int) -> int {
        self.ov_z() + 1 + i
    }

    pub open spec fn cg_z(self, r: int, k: int) -> int {
        self.ov_z() + 3 + 4 * r + k
    }

    pub open spec fn fused_w_z(self) -> int {
        self.ov_z() + 27
    }

    pub open spec fn p_round_z(self, r: int) -> int {
        FT_BIND_START + self.nb_z() + self.ni_z() + r
    }

    pub open spec fn p_query_z(self, q: int) -> int {
        FT_BIND_START + self.nb_z() + self.ni_z() + 6 + q
    }

    pub open spec fn m_base_z(self) -> int {
        FT_BIND_START + self.nb_z() + self.ni_z() + 6 + self.n_queries
    }

    /// The public values of the trace commitment entry.
    pub open spec fn cap_z(self) -> int {
        2 * self.nb_z() + self.ni_z() + 2
    }

    pub fn nb(&self) -> (r: usize)
        ensures
            r == self.nb_z(),
    {
        self.binds.len()
    }

    pub fn ni(&self) -> (r: usize)
        ensures
            r == self.ni_z(),
    {
        self.index_binds.len()
    }

    pub fn z(&self, k: usize) -> (r: usize)
        requires
            terms_limit(k as int),
        ensures
            r == self.z_z(k as int),
    {
        QT_TERMS + 9 * k
    }

    pub fn pz(&self, k: usize) -> (r: usize)
        requires
            terms_limit(k as int),
        ensures
            r == self.z_z(k as int) + 2,
    {
        self.z(k) + 2
    }

    pub fn px(&self, k: usize) -> (r: usize)
        requires
            terms_limit(k as int),
        ensures
            r == self.z_z(k as int) + 4,
    {
        self.z(k) + 4
    }

    pub fn inv(&self, k: usize) -> (r: usize)
        requires
            terms_limit(k as int),
        ensures
            r == self.z_z(k as int) + 5,
    {
        self.z(k) + 5
    }

    pub fn apow(&self, k: usize) -> (r: usize)
        requires
            terms_limit(k as int),
        ensures
            r == self.z_z(k as int) + 7,
    {
        self.z(k) + 7
    }

    pub fn tile_w(&self) -> (r: usize)
        requires
            self.wf(),
        ensures
            r == QT_TERMS + 9 * self.n_terms,
    {
        QT_TERMS + 9 * self.n_terms
    }

    pub fn sb_x(&self) -> (r: usize)
        requires
            self.wf(),
        ensures
            r == self.sb_x_z(),
    {
        self.tile_w()
    }

    pub fn sb_b(&self, i: usize) -> (r: usize)
        requires
            self.wf(),
            i < 64,
        ensures
            r == self.sb_x_z() + 1 + i,
    {
        self.sb_x() + 1 + i
    }

    pub fn sb_q(&self, k: usize) -> (r: usize)
        requires
            self.wf(),
            k < 31,
        ensures
            r == self.sb_x_z() + 65 + k,
    {
        self.sb_x() + 65 + k
    }

    pub fn idx_rem(&self) -> (r: usize)
        requires
            self.wf(),
        ensures
            r == self.idx_rem_z(),
    {
        self.sb_x() + 96
    }

    pub fn carry(&self) -> (r: usize)
        requires
            self.wf(),
        ensures
            r == self.carry_z(),
    {
        self.idx_rem() + 1
    }

    pub fn ov(&self) -> (r: usize)
        requires
            self.wf(),
        ensures
            r == self.ov_z(),
    {
        self.carry() + 2
    }

    pub fn qc(&self, i: usize) -> (r: usize)
        requires
            self.wf(),
            i < 2,
        ensures
            r == self.qc_z(i as int),
    {
        self.ov() + 1 + i
    }

    pub fn cg(&self, r: usize, k: usize) -> (c: usize)
        requires
            self.wf(),
            r < CM_ROUNDS,
            k < 4,
        ensures
            c == self.cg_z(r as int, k as int),
    {
        self.ov() + 3 + 4 * r + k
    }

    pub fn fused_w(&self) -> (r: usize)
        requires
            self.wf(),
        ensures
            r == self.fused_w_z(),
    {
        self.ov() + 3 + 4 * CM_ROUNDS
    }

    pub fn m_sib(&self) -> (r: usize)
        ensures
            r == 8,
    {
        8
    }

    pub fn m_bit(&self) -> (r: usize)
        ensures
            r == 12,
    {
        12
    }

    pub fn p_round(&self, r: usize) -> (c: usize)
        requires
            self.wf(),
            r < CM_ROUNDS,
        ensures
            c == self.p_round_z(r as int),
    {
        FT_BIND_START + self.nb() + self.ni() + r
    }

    pub fn p_query(&self, q: usize) -> (c: usize)
        requires
            self.wf(),
            q <= self.n_queries,
        ensures
            c == self.p_query_z(q as int),
    {
        FT_BIND_START + self.nb() + self.ni() + 6 + q
    }

    pub fn m_base(&self) -> (c: usize)
        requires
            self.wf(),
        ensures
            c == self.m_base_z(),
    {
        FT_BIND_START + self.nb() + self.ni() + 6 + self.n_queries
    }

    pub fn m_tf(&self) -> (c: usize)
        requires
            self.wf(),
        ensures
            c == self.m_base_z(),
    {
        self.m_base()
    }

    pub fn m_tl(&self) -> (c: usize)
        requires
            self.wf(),
        ensures
            c == self.m_base_z() + 1,
    {
        self.m_base() + 1
    }

    pub fn m_leaf(&self) -> (c: usize)
        requires
            self.wf(),
        ensures
            c == self.m_base_z() + 2,
    {
        self.m_base() + 2
    }

    pub fn m_term(&self) -> (c: usize)
        requires
            self.wf(),
        ensures
            c == self.m_base_z() + 3,
    {
        self.m_base() + 3
    }

    pub fn s_trans(&self) -> (c: usize)
        requires
            self.wf(),
        ensures
            c == self.m_base_z() + 4,
    {
        self.m_base() + 4
    }

    pub fn s_query(&self) -> (c: usize)
        requires
            self.wf(),
        ensures
            c == self.m_base_z() + 5,
    {
        self.m_base() + 5
    }

    pub fn s_merkle(&self) -> (c: usize)
        requires
            self.wf(),
        ensures
            c == self.m_base_z() + 6,
    {
        self.m_base() + 6
    }

    pub fn s_trans_trans(&self) -> (c: usize)
        requires
            self.wf(),
        ensures
            c == self.m_base_z() + 7,
    {
        self.m_base() + 7
    }

    pub fn p_st_last(&self) -> (c: usize)
        requires
            self.wf(),
        ensures
            c == self.m_base_z() + 8,
    {
        self.m_base() + 8
    }

    pub fn q_leaf(&self) -> (c: usize)
        requires
            self.wf(),
        ensures
            c == self.m_base_z() + 9,
    {
        self.m_base() + 9
    }

    pub fn q_term(&self) -> (c: usize)
        requires
            self.wf(),
        ensures
            c == self.m_base_z() + 10,
    {
        self.m_base() + 10
    }

    pub fn c_leaf(&self, r: usize) -> (c: usize)
        requires
            self.wf(),
            r < CM_ROUNDS,
        ensures
            c == self.m_base_z() + 11 + r,
    {
        self.m_base() + 11 + r
    }

    pub fn c_term(&self, r: usize) -> (c: usize)
        requires
            self.wf(),
            r < CM_ROUNDS,
        ensures
            c == self.m_base_z() + 17 + r,
    {
        self.m_base() + 11 + CM_ROUNDS + r
    }

    pub fn width(&self) -> (r: usize)
        requires
            self.wf(),
        ensures
            r == self.fused_w_z(),
    {
        self.fused_w()
    }

    pub fn num_public_values(&self) -> (r: usize)
        requires
            self.wf(),
        ensures
            r == self.cap_z() + 9 + 4 * CM_ROUNDS,
    {
        2 * self.nb() + self.ni() + 2 + 4 + 4 + 1 + 4 * CM_ROUNDS
    }

    pub fn num_periodic_columns(&self) -> (r: usize)
        requires
            self.wf(),
        ensures
            r == self.m_base_z() + 23,
    {
        self.c_term(CM_ROUNDS - 1) + 1
    }
}

/// `x^(2^n)` in `Z[X] / (X^2 - 7)`.
pub open spec fn zsquares(x: (int, int), n: nat) -> (int, int)
    decreases n,
{
    if n == 0 {
        x
    } else {
        let y = zsquares(x, (n - 1) as nat);
        zmul(y, y)
    }
}

fn squares_expr(x: &ExtExpr, n: usize) -> (r: ExtExpr)
    ensures
        forall|env: Env| #[trigger] r.val(env) == zsquares(x.val(env), n as nat),
{
    let mut r: ExtExpr = x.dup();
    for i in 0..n
        invariant
            forall|env: Env| #[trigger] r.val(env) == zsquares(x.val(env), i as nat),
    {
        r = r.times(&r);
    }
    r
}

/// The check at the out-of-domain point `zeta`, multiplied through by the vanishing polynomial and
/// by `zeta - 1`: the inner constraints (a value that starts at the public one and never changes),
/// combined by the challenge, against the quotient `c0 + c1 X`. `g_inv` is the inverse of the
/// generator of the inner trace domain.
pub open spec fn epilogue_z(env: Env, pz: int, pub_at: int, g_inv: int) -> (int, int) {
    let (alpha, zeta) = (pair(env.pis, 0), pair(env.pis, 2));
    let zh = zsub(zsquares(zeta, M_DEGREE_BITS as nat), (1, 0));
    let is_trans = zsub(zeta, (g_inv, 0));
    let zm1 = zsub(zeta, (1, 0));
    let local = pair(env.cur, pz);
    let next = pair(env.cur, pz + 9);
    let (c0, c1) = (pair(env.cur, pz + 18), pair(env.cur, pz + 27));
    let quot = zadd(c0, ((W_EXT as int) * c1.1, c1.0));
    let t1 = zmul(zmul(zh, alpha), zsub(local, (env.pis[pub_at], 0)));
    let t2 = zmul(zmul(is_trans, zm1), zsub(next, local));
    zsub(zadd(t1, t2), zmul(zmul(zh, zm1), quot))
}

fn epilogue_expr(pz: usize, pub_at: usize, g_inv: u64) -> (r: ExtExpr)
    requires
        pz + 28 <= usize::MAX,
    ensures
        forall|env: Env|
            #[trigger] r.val(env) == epilogue_z(env, pz as int, pub_at as int, g_inv as int),
{
    let alpha: ExtExpr = pis_ext(0);
    let zeta: ExtExpr = pis_ext(2);
    let one: ExtExpr = ExtExpr { c0: cst(1), c1: cst(0) };
    let gi: ExtExpr = ExtExpr { c0: cst(g_inv), c1: cst(0) };
    let pv: ExtExpr = ExtExpr { c0: pis(pub_at), c1: cst(0) };
    let zh: ExtExpr = squares_expr(&zeta, M_DEGREE_BITS).minus(&one);
    let is_trans: ExtExpr = zeta.minus(&gi);
    let zm1: ExtExpr = zeta.minus(&one);
    let local: ExtExpr = cur_ext(pz);
    let next: ExtExpr = cur_ext(pz + 9);
    let c0: ExtExpr = cur_ext(pz + 18);
    let c1: ExtExpr = cur_ext(pz + 27);
    let shifted: ExtExpr = ExtExpr { c0: cst(W_EXT).times(&c1.c1), c1: c1.c0.dup() };
    let quot: ExtExpr = c0.plus(&shifted);
    let t1: ExtExpr = zh.times(&alpha).times(&local.minus(&pv));
    let t2: ExtExpr = is_trans.times(&zm1).times(&next.minus(&local));
    let r: ExtExpr = t1.plus(&t2).minus(&zh.times(&zm1).times(&quot));
    proof {
        assert forall|env: Env| #[trigger] r.val(env) == epilogue_z(env, pz as int, pub_at as int, g_inv as int) by {
            assert(one.val(env) == (1int, 0int));
            assert(gi.val(env) == (g_inv as int, 0int));
            assert(pv.val(env) == (env.pis[pub_at as int], 0int));
            assert(c1.val(env) == pair(env.cur, pz + 27));
            assert(shifted.val(env) == ((W_EXT as int) * c1.val(env).1, c1.val(env).0));
            assert(quot.val(env) == zadd(c0.val(env), shifted.val(env)));
        }
    }
    r
}

/// The opening points of a tile are the out-of-domain point (terms 0, 2 and 3) and its successor
/// (term 1).
pub open spec fn point_bind_list(
    acc: Seq<(Gate, int)>,
    env: Env,
    on: int,
    z: int,
    g: int,
) -> Seq<(Gate, int)> {
    let zeta = pair(env.pis, 2);
    acc.push((Gate::Always, on * (env.cur[z] - zeta.0))).push(
        (Gate::Always, on * (env.cur[z + 1] - zeta.1)),
    ).push((Gate::Always, on * (env.cur[z + 18] - zeta.0))).push(
        (Gate::Always, on * (env.cur[z + 19] - zeta.1)),
    ).push((Gate::Always, on * (env.cur[z + 27] - zeta.0))).push(
        (Gate::Always, on * (env.cur[z + 28] - zeta.1)),
    ).push((Gate::Always, on * (env.cur[z + 9] - zeta.0 * g))).push(
        (Gate::Always, on * (env.cur[z + 10] - zeta.1 * g)),
    )
}

fn point_bind_part(out: &mut Vec<Constraint>, on: &Expr, z: usize, g: u64)
    requires
        z + 28 <= usize::MAX,
    ensures
        forall|env: Env|
            #[trigger] denote(final(out)@, env) == point_bind_list(
                denote(old(out)@, env),
                env,
                on.val(env),
                z as int,
                g as int,
            ),
{
    let (z0, z1) = (pis(2), pis(3));
    emit(out, Gate::Always, on.times(&cur(z).minus(&z0)));
    emit(out, Gate::Always, on.times(&cur(z + 1).minus(&z1)));
    emit(out, Gate::Always, on.times(&cur(z + 18).minus(&z0)));
    emit(out, Gate::Always, on.times(&cur(z + 19).minus(&z1)));
    emit(out, Gate::Always, on.times(&cur(z + 27).minus(&z0)));
    emit(out, Gate::Always, on.times(&cur(z + 28).minus(&z1)));
    emit(out, Gate::Always, on.times(&cur(z + 9).minus(&z0.times(&cst(g)))));
    emit(out, Gate::Always, on.times(&cur(z + 10).minus(&z1.times(&cst(g)))));
}

/// The opened values that the Merkle blocks hash, held within a tile.
pub open spec fn opened_list(
    acc: Seq<(Gate, int)>,
    env: Env,
    on: int,
    hold: int,
    ov: int,
    px: int,
) -> Seq<(Gate, int)> {
    acc.push((Gate::Transition, hold * (env.nxt[ov] - env.cur[ov]))).push(
        (Gate::Always, on * (env.cur[ov] - env.cur[px])),
    ).push((Gate::Transition, hold * (env.nxt[ov + 1] - env.cur[ov + 1]))).push(
        (Gate::Transition, hold * (env.nxt[ov + 2] - env.cur[ov + 2])),
    ).push((Gate::Always, on * (env.cur[ov + 1] - env.cur[px + 18]))).push(
        (Gate::Always, on * (env.cur[ov + 2] - env.cur[px + 27])),
    )
}

fn opened_part(out: &mut Vec<Constraint>, on: &Expr, hold: &Expr, ov: usize, px: usize)
    requires
        ov + 2 <= usize::MAX,
        px + 27 <= usize::MAX,
    ensures
        forall|env: Env|
            #[trigger] denote(final(out)@, env) == opened_list(
                denote(old(out)@, env),
                env,
                on.val(env),
                hold.val(env),
                ov as int,
                px as int,
            ),
{
    emit(out, Gate::Transition, hold.times(&nxt(ov).minus(&cur(ov))));
    emit(out, Gate::Always, on.times(&cur(ov).minus(&cur(px))));
    emit(out, Gate::Transition, hold.times(&nxt(ov + 1).minus(&cur(ov + 1))));
    emit(out, Gate::Transition, hold.times(&nxt(ov + 2).minus(&cur(ov + 2))));
    emit(out, Gate::Always, on.times(&cur(ov + 1).minus(&cur(px + 18))));
    emit(out, Gate::Always, on.times(&cur(ov + 2).minus(&cur(px + 27))));
}

/// Element `k` of the fold group of a row: the running evaluation and its sibling, in the order
/// that the slot bit gives.
pub open spec fn group_z(row: Seq<int>, k: int) -> int {
    let bit = row[6];
    if k < 2 {
        (1 - bit) * row[k] + bit * row[2 + k]
    } else {
        (1 - bit) * row[k] + bit * row[k - 2]
    }
}

/// The carriers from column `cg` on hold the fold group of the row where `seed` is set, within a
/// tile.
pub open spec fn group_list(
    acc: Seq<(Gate, int)>,
    env: Env,
    seed: int,
    hold: int,
    cg: int,
) -> Seq<(Gate, int)> {
    acc + gated(
        Gate::Always,
        Seq::new(4, |k: int| seed * (env.cur[cg + k] - group_z(env.cur, k))),
    ) + gated(Gate::Transition, Seq::new(4, |k: int| hold * (env.nxt[cg + k] - env.cur[cg + k])))
}

fn group_part(out: &mut Vec<Constraint>, seed: &Expr, hold: &Expr, cg: usize)
    requires
        cg + 4 <= usize::MAX,
    ensures
        forall|env: Env|
            #[trigger] denote(final(out)@, env) == group_list(
                denote(old(out)@, env),
                env,
                seed.val(env),
                hold.val(env),
                cg as int,
            ),
{
    let bit: Expr = cur(F_BIT);
    let nbit: Expr = cst(1).minus(&bit);
    let mut seeds: Vec<Expr> = Vec::new();
    let mut holds: Vec<Expr> = Vec::new();
    for k in 0..4
        invariant
            cg + 4 <= usize::MAX,
            forall|env: Env| #[trigger] bit.val(env) == env.cur[6],
            forall|env: Env| #[trigger] nbit.val(env) == 1 - env.cur[6],
            seeds.len() == k,
            holds.len() == k,
            forall|j: int, env: Env|
                0 <= j < k ==> (#[trigger] seeds@[j].val(env)) == seed.val(env) * (env.cur[cg + j]
                    - group_z(env.cur, j)),
            forall|j: int, env: Env|
                0 <= j < k ==> (#[trigger] holds@[j].val(env)) == hold.val(env) * (env.nxt[cg + j]
                    - env.cur[cg + j]),
    {
        let other: Expr = if k < 2 {
            cur(2 + k)
        } else {
            cur(k - 2)
        };
        let g: Expr = nbit.times(&cur(k)).plus(&bit.times(&other));
        seeds.push(seed.times(&cur(cg + k).minus(&g)));
        holds.push(hold.times(&nxt(cg + k).minus(&cur(cg + k))));
    }
    emit_all(out, Gate::Always, &seeds);
    emit_all(out, Gate::Transition, &holds);
    proof {
        assert forall|env: Env|
            #[trigger] denote(out@, env) == group_list(
                denote(old(out)@, env),
                env,
                seed.val(env),
                hold.val(env),
                cg as int,
            ) by {
            assert(vals(seeds@, env) =~= Seq::new(
                4,
                |k: int| seed.val(env) * (env.cur[cg + k] - group_z(env.cur, k)),
            ));
            assert(vals(holds@, env) =~= Seq::new(
                4,
                |k: int| hold.val(env) * (env.nxt[cg + k] - env.cur[cg + k]),
            ));
        }
    }
}

/// The carriers of the first `n` rounds.
pub open spec fn groups_list(
    acc: Seq<(Gate, int)>,
    env: Env,
    p_round: int,
    hold: int,
    cg: int,
    n: nat,
) -> Seq<(Gate, int)>
    decreases n,
{
    if n == 0 {
        acc
    } else {
        group_list(
            groups_list(acc, env, p_round, hold, cg, (n - 1) as nat),
            env,
            env.per[p_round + n - 1],
            hold,
            cg + 4 * (n - 1),
        )
    }
}

/// The leaf block at whose head `on` is set: its lanes are the `n` cells from column `from` on,
/// then zeros.
pub open spec fn leaf_polys(row: Seq<int>, on: int, from: int, n: int) -> Seq<int> {
    Seq::new(
        8,
        |i: int|
            on * (row[i] - (if i < n {
                row[from + i]
            } else {
                0
            })),
    )
}

pub fn leaf_exprs(on: &Expr, from: usize, n: usize) -> (r: Vec<Expr>)
    requires
        n <= 8,
        from + n <= usize::MAX,
    ensures
        r.len() == 8,
        forall|env: Env|
            #[trigger] vals(r@, env) == leaf_polys(env.cur, on.val(env), from as int, n as int),
{
    let mut r: Vec<Expr> = Vec::new();
    for i in 0..8
        invariant
            n <= 8,
            from + n <= usize::MAX,
            r.len() == i,
            forall|j: int, env: Env|
                0 <= j < i ==> (#[trigger] r@[j].val(env)) == on.val(env) * (env.cur[j] - (if j
                    < n {
                    env.cur[from + j]
                } else {
                    0
                })),
    {
        if i < n {
            r.push(on.times(&cur(i).minus(&cur(from + i))));
        } else {
            r.push(on.times(&cur(i)));
        }
    }
    proof {
        assert forall|env: Env| #[trigger]
            vals(r@, env) == leaf_polys(env.cur, on.val(env), from as int, n as int) by {
            assert(vals(r@, env) =~= leaf_polys(env.cur, on.val(env), from as int, n as int));
        }
    }
    r
}

/// The leaf blocks of the first `n` fold groups.
pub open spec fn group_leaves_list(
    acc: Seq<(Gate, int)>,
    env: Env,
    c_leaf: int,
    cg: int,
    n: nat,
) -> Seq<(Gate, int)>
    decreases n,
{
    if n == 0 {
        acc
    } else {
        group_leaves_list(acc, env, c_leaf, cg, (n - 1) as nat) + gated(
            Gate::Always,
            leaf_polys(env.cur, env.per[c_leaf + n - 1], cg + 4 * (n - 1), 4),
        )
    }
}

/// The product of the complements of `n` consecutive periodic values.
pub open spec fn per_none(p: Seq<int>, from: int, n: nat) -> int
    decreases n,
{
    if n == 0 {
        1
    } else {
        per_none(p, from, (n - 1) as nat) * (1 - p[from + n - 1])
    }
}

fn per_none_expr(from: usize, n: usize) -> (r: Expr)
    requires
        from + n <= usize::MAX,
    ensures
        forall|env: Env| #[trigger] r.val(env) == per_none(env.per, from as int, n as nat),
{
    let mut r: Expr = cst(1);
    for i in 0..n
        invariant
            from + n <= usize::MAX,
            forall|env: Env| #[trigger] r.val(env) == per_none(env.per, from as int, i as nat),
    {
        r = r.times(&cst(1).minus(&per(from + i)));
    }
    r
}

/// The ends of the paths of the trace value and of the quotient row are the public entries.
pub open spec fn ends_polys(env: Env, term: int, qterm: int, cap: int) -> Seq<int> {
    Seq::new(
        8,
        |j: int|
            if j % 2 == 0 {
                term * (env.cur[j / 2] - env.pis[cap + j / 2])
            } else {
                qterm * (env.cur[j / 2] - env.pis[cap + 4 + j / 2])
            },
    )
}

fn ends_exprs(term: &Expr, qterm: &Expr, cap: usize) -> (r: Vec<Expr>)
    requires
        cap + 8 <= usize::MAX,
    ensures
        r.len() == 8,
        forall|env: Env|
            #[trigger] vals(r@, env) == ends_polys(env, term.val(env), qterm.val(env), cap as int),
{
    let mut r: Vec<Expr> = Vec::new();
    for k in 0..4
        invariant
            cap + 8 <= usize::MAX,
            r.len() == 2 * k,
            forall|j: int, env: Env|
                0 <= j < 2 * k ==> (#[trigger] r@[j].val(env)) == (if j % 2 == 0 {
                    term.val(env) * (env.cur[j / 2] - env.pis[cap + j / 2])
                } else {
                    qterm.val(env) * (env.cur[j / 2] - env.pis[cap + 4 + j / 2])
                }),
    {
        r.push(term.times(&cur(k).minus(&pis(cap + k))));
        r.push(qterm.times(&cur(k).minus(&pis(cap + 4 + k))));
    }
    proof {
        assert forall|env: Env| #[trigger]
            vals(r@, env) == ends_polys(env, term.val(env), qterm.val(env), cap as int) by {
            assert(vals(r@, env) =~= ends_polys(env, term.val(env), qterm.val(env), cap as int));
        }
    }
    r
}

/// The ends of the paths of the fold groups are the public entries from `ccap` on.
pub open spec fn group_ends_polys(env: Env, c_term: int, ccap: int) -> Seq<int> {
    Seq::new(
        24,
        |j: int| env.per[c_term + j / 4] * (env.cur[j % 4] - env.pis[ccap + j]),
    )
}

fn group_ends_exprs(c_term: usize, ccap: usize) -> (r: Vec<Expr>)
    requires
        c_term + 6 <= usize::MAX,
        ccap + 24 <= usize::MAX,
    ensures
        r.len() == 24,
        forall|env: Env|
            #[trigger] vals(r@, env) == group_ends_polys(env, c_term as int, ccap as int),
{
    let mut r: Vec<Expr> = Vec::new();
    for j in 0..24
        invariant
            c_term + 6 <= usize::MAX,
            ccap + 24 <= usize::MAX,
            r.len() == j,
            forall|i: int, env: Env|
                0 <= i < j ==> (#[trigger] r@[i].val(env)) == env.per[c_term + i / 4] * (env.cur[i
                    % 4] - env.pis[ccap + i]),
    {
        r.push(per(c_term + j / 4).times(&cur(j % 4).minus(&pis(ccap + j))));
    }
    proof {
        assert forall|env: Env| #[trigger]
            vals(r@, env) == group_ends_polys(env, c_term as int, ccap as int) by {
            assert(vals(r@, env) =~= group_ends_polys(env, c_term as int, ccap as int));
        }
    }
    r
}

impl MonolithAir {
    /// The transcript region, and the challenge that the tiles read.
    pub open spec fn transcript_polys(self, env: Env) -> Seq<(Gate, int)> {
        let m = self.m_base_z();
        carrier_list(
            transcript_list(
                Seq::empty(),
                env,
                env.per[m + 4] + env.per[m + 6],
                env.per[m + 7],
                self.nb_z(),
                self.index_binds@,
            ),
            env,
            self.carry_z(),
        )
    }

    /// The arithmetic head of a tile: evaluation point, reduced opening, fold challenges, index.
    pub open spec fn head_polys(self, acc: Seq<(Gate, int)>, env: Env) -> Seq<(Gate, int)> {
        let tf = env.per[self.m_base_z()];
        let carry = self.carry_z();
        let rounds = self.nb_z() - 3;
        index_list(
            bound_head_list(acc, env, tf, carry, self.n_terms as int) + gated(Gate::Always, beta_polys(env, self.p_round_z(0), rounds)),
            env,
            tf,
            per_select(
                env.per,
                self.p_query_z(0),
                env.pis,
                2 * self.nb_z(),
                self.n_queries as nat,
            ),
            self.sb_x_z(),
        )
    }

    /// The fold chain of a tile, its end, and the check at the out-of-domain point. `g` generates
    /// the inner trace domain and `g_inv` is its inverse.
    pub open spec fn fold_and_check_polys(
        self,
        acc: Seq<(Gate, int)>,
        env: Env,
        g: int,
        g_inv: int,
    ) -> Seq<(Gate, int)> {
        let (tf, tl) = (env.per[self.m_base_z()], env.per[self.m_base_z() + 1]);
        let mask = per_sum(env.per, self.p_round_z(0), (self.nb_z() - 3) as nat);
        let check = epilogue_z(env, self.z_z(0) + 2, self.cap_z() + 8, g_inv);
        point_bind_list(
            accept_list(
                fold_list(
                    acc.push((Gate::Transition, mask * shift_z(env, self.idx_rem_z()))),
                    env,
                    mask,
                ),
                env,
                tl,
                self.cap_z() - 2,
            ).push((Gate::Always, tf * check.0)).push((Gate::Always, tf * check.1)),
            env,
            tf,
            self.z_z(0),
            g,
        )
    }

    /// The carriers of a tile.
    pub open spec fn carrier_polys(self, acc: Seq<(Gate, int)>, env: Env) -> Seq<(Gate, int)> {
        let m = self.m_base_z();
        let hold = env.per[m + 5] * (1 - env.per[m + 8]);
        groups_list(
            opened_list(acc, env, env.per[m], hold, self.ov_z(), self.z_z(0) + 4),
            env,
            self.p_round_z(0),
            hold,
            self.cg_z(0, 0),
            CM_ROUNDS as nat,
        )
    }

    /// The Merkle blocks of a tile.
    pub open spec fn merkle_polys(self, acc: Seq<(Gate, int)>, env: Env) -> Seq<(Gate, int)> {
        let m = self.m_base_z();
        let p = env.per;
        let none = (1 - p[m + 3]) * (1 - p[m + 10]) * per_none(p, m + 17, CM_ROUNDS as nat);
        let link = p[m + 6] * p[11] * (1 - p[m + 8]) * none;
        group_leaves_list(
            acc + gated(Gate::Always, leaf_polys(env.cur, p[m + 2], self.ov_z(), 1)) + gated(
                Gate::Always,
                leaf_polys(env.cur, p[m + 9], self.qc_z(0), 2),
            ),
            env,
            m + 11,
            self.cg_z(0, 0),
            CM_ROUNDS as nat,
        ).push((Gate::Always, p[m + 6] * bit_z(env.cur[12]))) + gated(
            Gate::Transition,
            scaled(link, link_polys(env.cur, env.nxt, 8, 12)),
        ) + gated(Gate::Always, ends_polys(env, p[m + 3], p[m + 10], self.cap_z())) + gated(
            Gate::Always,
            group_ends_polys(env, m + 17, self.cap_z() + 9),
        )
    }

    /// The constraints of the fused system.
    pub open spec fn polys(self, env: Env) -> Seq<(Gate, int)> {
        let g = two_adic_gen(M_DEGREE_BITS as int);
        self.merkle_polys(
            self.carrier_polys(
                self.fold_and_check_polys(
                    self.head_polys(self.transcript_polys(env), env),
                    env,
                    g,
                    finv_z(g),
                ),
                env,
            ),
            env,
        )
    }

    fn transcript_and_head(&self, out: &mut Vec<Constraint>)
        requires
            self.wf(),
            old(out)@.len() == 0,
        ensures
            forall|env: Env|
                #[trigger] denote(final(out)@, env) == self.head_polys(
                    self.transcript_polys(env),
                    env,
                ),
    {
        proof {
            assert forall|env: Env| #[trigger] denote(out@, env) == Seq::<(Gate, int)>::empty() by {
                assert(denote(out@, env) =~= Seq::<(Gate, int)>::empty());
            }
        }
        let tf: Expr = per(self.m_tf());
        let carry: usize = self.carry();
        let rounds_on: Expr = per(self.s_trans()).plus(&per(self.s_merkle()));
        let links_on: Expr = per(self.s_trans_trans());
        transcript_part(out, &rounds_on, &links_on, self.nb(), &self.index_binds);
        carrier_part(out, carry);
        point_part(out, &tf);
        emit(out, Gate::Always, tf.times(&cur(QT_ALPHA).minus(&cur(carry))));
        emit(out, Gate::Always, tf.times(&cur(QT_ALPHA + 1).minus(&cur(carry + 1))));
        opening_part(out, &tf, self.n_terms);
        let betas: Vec<Expr> = beta_exprs(self.p_round(0), self.nb() - 3);
        emit_all(out, Gate::Always, &betas);
        let selected: Expr = per_select_expr(self.p_query(0), 2 * self.nb(), self.n_queries);
        index_part(out, &tf, &selected, self.sb_x());
    }

    fn fold_and_check(&self, out: &mut Vec<Constraint>, g: u64, g_inv: u64)
        requires
            self.wf(),
        ensures
            forall|env: Env|
                #[trigger] denote(final(out)@, env) == self.fold_and_check_polys(
                    denote(old(out)@, env),
                    env,
                    g as int,
                    g_inv as int,
                ),
    {
        let tf: Expr = per(self.m_tf());
        let tl: Expr = per(self.m_tl());
        let mask: Expr = per_sum_expr(self.p_round(0), self.nb() - 3);
        let cap: usize = 2 * self.nb() + self.ni() + 2;
        emit(out, Gate::Transition, mask.times(&shift_expr(self.idx_rem())));
        fold_part(out, &mask);
        accept_part(out, &tl, cap - 2);
        let check: ExtExpr = epilogue_expr(self.pz(0), cap + 8, g_inv);
        assert forall|env: Env| (#[trigger] check.c0.val(env)) == epilogue_z(env, self.z_z(0) + 2, self.cap_z() + 8, g_inv as int).0 by {
            assert(check.val(env).0 == check.c0.val(env));
        }
        assert forall|env: Env| (#[trigger] check.c1.val(env)) == epilogue_z(env, self.z_z(0) + 2, self.cap_z() + 8, g_inv as int).1 by {
            assert(check.val(env).1 == check.c1.val(env));
        }
        emit(out, Gate::Always, tf.times(&check.c0));
        emit(out, Gate::Always, tf.times(&check.c1));
        point_bind_part(out, &tf, self.z(0), g);
    }

    fn carriers(&self, out: &mut Vec<Constraint>)
        requires
            self.wf(),
        ensures
            forall|env: Env|
                #[trigger] denote(final(out)@, env) == self.carrier_polys(
                    denote(old(out)@, env),
                    env,
                ),
    {
        let tf: Expr = per(self.m_tf());
        let hold: Expr = per(self.s_query()).times(&cst(1).minus(&per(self.p_st_last())));
        opened_part(out, &tf, &hold, self.ov(), self.px(0));
        let ghost start = out@;
        for r in 0..CM_ROUNDS
            invariant
                self.wf(),
                forall|env: Env|
                    #[trigger] hold.val(env) == env.per[self.m_base_z() + 5] * (1
                        - env.per[self.m_base_z() + 8]),
                forall|env: Env|
                    #[trigger] denote(out@, env) == groups_list(
                        denote(start, env),
                        env,
                        self.p_round_z(0),
                        hold.val(env),
                        self.cg_z(0, 0),
                        r as nat,
                    ),
        {
            let seed: Expr = per(self.p_round(r));
            group_part(out, &seed, &hold, self.cg(r, 0));
        }
    }

    fn merkle(&self, out: &mut Vec<Constraint>)
        requires
            self.wf(),
        ensures
            forall|env: Env|
                #[trigger] denote(final(out)@, env) == self.merkle_polys(
                    denote(old(out)@, env),
                    env,
                ),
    {
        let leaf: Vec<Expr> = leaf_exprs(&per(self.m_leaf()), self.ov(), 1);
        emit_all(out, Gate::Always, &leaf);
        let qleaf: Vec<Expr> = leaf_exprs(&per(self.q_leaf()), self.qc(0), 2);
        emit_all(out, Gate::Always, &qleaf);
        let ghost start = out@;
        for r in 0..CM_ROUNDS
            invariant
                self.wf(),
                forall|env: Env|
                    #[trigger] denote(out@, env) == group_leaves_list(
                        denote(start, env),
                        env,
                        self.m_base_z() + 11,
                        self.cg_z(0, 0),
                        r as nat,
                    ),
        {
            let cl: Vec<Expr> = leaf_exprs(&per(self.c_leaf(r)), self.cg(r, 0), 4);
            emit_all(out, Gate::Always, &cl);
        }
        let on: Expr = per(self.s_merkle());
        emit(out, Gate::Always, on.times(&bit_poly(&cur(self.m_bit()))));
        let one: Expr = cst(1);
        let (term, qterm) = (per(self.m_term()), per(self.q_term()));
        let none: Expr = one.minus(&term).times(&one.minus(&qterm)).times(
            &per_none_expr(self.c_term(0), CM_ROUNDS),
        );
        let link: Expr = on.times(&per(11)).times(&one.minus(&per(self.p_st_last()))).times(&none);
        let links: Vec<Expr> = scale_all(&link, &link_exprs(self.m_sib(), self.m_bit()));
        emit_all(out, Gate::Transition, &links);
        let cap: usize = 2 * self.nb() + self.ni() + 2;
        let ends: Vec<Expr> = ends_exprs(&term, &qterm, cap);
        emit_all(out, Gate::Always, &ends);
        let group_ends: Vec<Expr> = group_ends_exprs(self.c_term(0), cap + 9);
        emit_all(out, Gate::Always, &group_ends);
    }

    /// The constraints of the fused system.
    pub fn eval(&self) -> (r: Vec<Constraint>)
        requires
            self.wf(),
        ensures
            forall|env: Env| #[trigger] denote(r@, env) == self.polys(env),
    {
        let g: u64 = two_adic_generator(M_DEGREE_BITS);
        proof {
            crate::field::lemma_red_small(g as int);
        }
        let g_inv: u64 = inverse(g);
        let mut out: Vec<Constraint> = Vec::new();
        self.transcript_and_head(&mut out);
        self.fold_and_check(&mut out, g, g_inv);
        self.carriers(&mut out);
        self.merkle(&mut out);
        out
    }
}

impl MonolithAir {
    /// The rows of the transcript region.
    pub open spec fn tr_z(self) -> int {
        np2(self.counts.len() as int) * 32
    }

    /// The rows of the trace.
    pub open spec fn height_z(self) -> int {
        np2(self.tr_z() + self.n_queries * M_PERIOD)
    }

    /// The trace has a height, and each bound block has an output row in it.
    pub open spec fn fits(self) -> bool {
        &&& self.wf()
        &&& self.height_z() <= usize::MAX
        &&& forall|j: int|
            0 <= j < self.binds.len() ==> (#[trigger] self.binds@[j]) * 32 + 31 < self.height_z()
        &&& forall|j: int|
            0 <= j < self.index_binds.len() ==> (#[trigger] self.index_binds@[j]).0 * 32 + 31
                < self.height_z()
    }

    pub proof fn lemma_height(self)
        requires
            self.fits(),
        ensures
            self.tr_z() + self.n_queries * M_PERIOD <= self.height_z() <= usize::MAX,
            0 < np2(self.counts.len() as int) <= self.tr_z() <= usize::MAX,
            0 <= self.n_queries * M_PERIOD <= usize::MAX,
    {
        lemma_np2(self.counts.len() as int);
        lemma_np2(self.tr_z() + self.n_queries * M_PERIOD);
    }

    pub fn tr(&self) -> (r: usize)
        requires
            self.fits(),
        ensures
            r == self.tr_z(),
    {
        proof {
            self.lemma_height();
        }
        next_power_of_two(self.counts.len()) * BLOCK
    }

    pub fn height(&self) -> (r: usize)
        requires
            self.fits(),
        ensures
            r == self.height_z(),
    {
        proof {
            self.lemma_height();
        }
        next_power_of_two(self.tr() + self.n_queries * M_PERIOD)
    }

    /// Entry `r` of periodic column `j`.
    pub open spec fn col(self, j: int, r: int) -> int {
        let (nb, ni, nq) = (self.nb_z(), self.ni_z(), self.n_queries as int);
        let tr = self.tr_z();
        let m = self.m_base_z();
        let tile = |row: int| hot_z(r, tr, M_PERIOD as int, nq, row);
        if j < 11 {
            round_col(j, r)
        } else if j == 11 {
            last_z(r)
        } else if j == 12 {
            count_z(self.counts@, r, 0, tr)
        } else if j == 13 {
            count_z(self.counts@, r, 1, tr)
        } else if j == 14 {
            squeeze_z(self.counts@, r, tr)
        } else if j < 15 + nb {
            range_z(r, self.binds@[j - 15] * 32 + 31, self.binds@[j - 15] * 32 + 32)
        } else if j < 15 + nb + ni {
            let b = self.index_binds@[j - 15 - nb].0;
            range_z(r, b * 32 + 31, b * 32 + 32)
        } else if j < self.p_query_z(0) {
            tile(j - self.p_round_z(0))
        } else if j < m {
            let at = tr + (j - self.p_query_z(0)) * M_PERIOD;
            range_z(r, at, at + 1)
        } else if j == m {
            tile(0)
        } else if j == m + 1 {
            tile(6)
        } else if j == m + 2 {
            tile(M_INPUT_LEAF * 32)
        } else if j == m + 3 {
            tile(M_INPUT_TERM * 32 + 31)
        } else if j == m + 4 {
            range_z(r, 0, tr)
        } else if j == m + 5 {
            tail_z(r, tr, M_PERIOD as int, nq, 0)
        } else if j == m + 6 {
            tail_z(r, tr, M_PERIOD as int, nq, 32)
        } else if j == m + 7 {
            range_z(r, 0, tr - 1)
        } else if j == m + 8 {
            tile(M_PERIOD - 1)
        } else if j == m + 9 {
            tile(M_QUOT_LEAF * 32)
        } else if j == m + 10 {
            tile(M_QUOT_TERM * 32 + 31)
        } else if j < m + 17 {
            tile(cm_leaf_z(j - m - 11) * 32)
        } else {
            tile(cm_term_z(j - m - 17) * 32 + 31)
        }
    }

    /// The periodic columns.
    pub open spec fn cols_z(self) -> Seq<Seq<int>> {
        Seq::new(
            (self.m_base_z() + 23) as nat,
            |j: int|
                Seq::new(
                    if j < 11 {
                        32nat
                    } else {
                        self.height_z() as nat
                    },
                    |r: int| self.col(j, r),
                ),
        )
    }

    /// Whether `c` is periodic column `j`.
    pub open spec fn is_col(self, c: Seq<u64>, j: int) -> bool {
        &&& c.len() == (if j < 11 {
            32
        } else {
            self.height_z()
        })
        &&& forall|r: int| 0 <= r < c.len() ==> #[trigger] c[r] == self.col(j, r)
    }

    fn transcript_cols(&self, cols: &mut Vec<Vec<u64>>)
        requires
            self.fits(),
            old(cols).len() == 0,
        ensures
            final(cols).len() == self.p_round_z(0),
            forall|j: int| 0 <= j < final(cols).len() ==> self.is_col((#[trigger] final(cols)@[j])@, j),
    {
        let h: usize = self.height();
        let tr: usize = self.tr();
        let rounds: Vec<Vec<u64>> = periodic_table();
        let mut rounds: Vec<Vec<u64>> = rounds;
        assert(forall|j: int| 0 <= j < 11 ==> self.is_col((#[trigger] rounds@[j])@, j));
        cols.append(&mut rounds);
        assert(forall|j: int| 0 <= j < 11 ==> self.is_col((#[trigger] cols@[j])@, j));
        cols.push(last_col(h));
        cols.push(count_col(h, &self.counts, 0, tr));
        cols.push(count_col(h, &self.counts, 1, tr));
        cols.push(squeeze_col(h, &self.counts, tr));
        let nb: usize = self.nb();
        for i in 0..nb
            invariant
                nb == self.nb_z(),
                h == self.height_z(),
                self.fits(),
                cols.len() == 15 + i,
                forall|j: int| 0 <= j < cols.len() ==> self.is_col((#[trigger] cols@[j])@, j),
        {
            assert(self.binds@[i as int] * 32 + 31 < self.height_z());
            let at: usize = self.binds[i] * 32 + 31;
            cols.push(range_col(h, at, at + 1));
        }
        let ni: usize = self.ni();
        for i in 0..ni
            invariant
                nb == self.nb_z(),
                ni == self.ni_z(),
                h == self.height_z(),
                self.fits(),
                cols.len() == 15 + nb + i,
                forall|j: int| 0 <= j < cols.len() ==> self.is_col((#[trigger] cols@[j])@, j),
        {
            assert(self.index_binds@[i as int].0 * 32 + 31 < self.height_z());
            let at: usize = self.index_binds[i].0 * 32 + 31;
            cols.push(range_col(h, at, at + 1));
        }
    }

    /// The periodic columns.
    pub fn periodic(&self) -> (cols: Vec<Vec<u64>>)
        requires
            self.fits(),
        ensures
            cells(cols@) == self.cols_z(),
    {
        let mut cols: Vec<Vec<u64>> = Vec::new();
        self.transcript_cols(&mut cols);
        proof {
            self.lemma_height();
        }
        let h: usize = self.height();
        let tr: usize = self.tr();
        let nq: usize = self.n_queries;
        for i in 0..6
            invariant
                h == self.height_z(),
                tr == self.tr_z(),
                nq == self.n_queries,
                self.fits(),
                cols.len() == self.p_round_z(i as int),
                forall|j: int| 0 <= j < cols.len() ==> self.is_col((#[trigger] cols@[j])@, j),
        {
            cols.push(hot_col(h, tr, M_PERIOD, nq, i));
        }
        for q in 0..nq
            invariant
                h == self.height_z(),
                tr == self.tr_z(),
                nq == self.n_queries,
                tr + nq * M_PERIOD <= usize::MAX,
                self.fits(),
                cols.len() == self.p_query_z(q as int),
                forall|j: int| 0 <= j < cols.len() ==> self.is_col((#[trigger] cols@[j])@, j),
        {
            let at: usize = tr + q * M_PERIOD;
            cols.push(range_col(h, at, at + 1));
        }
        cols.push(hot_col(h, tr, M_PERIOD, nq, 0));
        cols.push(hot_col(h, tr, M_PERIOD, nq, 6));
        cols.push(hot_col(h, tr, M_PERIOD, nq, M_INPUT_LEAF * BLOCK));
        cols.push(hot_col(h, tr, M_PERIOD, nq, M_INPUT_TERM * BLOCK + BLOCK - 1));
        cols.push(range_col(h, 0, tr));
        cols.push(tail_col(h, tr, M_PERIOD, nq, 0));
        cols.push(tail_col(h, tr, M_PERIOD, nq, BLOCK));
        cols.push(range_col(h, 0, tr - 1));
        cols.push(hot_col(h, tr, M_PERIOD, nq, M_PERIOD - 1));
        cols.push(hot_col(h, tr, M_PERIOD, nq, M_QUOT_LEAF * BLOCK));
        cols.push(hot_col(h, tr, M_PERIOD, nq, M_QUOT_TERM * BLOCK + BLOCK - 1));
        assert(forall|j: int| 0 <= j < cols.len() ==> self.is_col((#[trigger] cols@[j])@, j));
        for i in 0..CM_ROUNDS
            invariant
                h == self.height_z(),
                tr == self.tr_z(),
                nq == self.n_queries,
                self.fits(),
                cols.len() == self.m_base_z() + 11 + i,
                forall|j: int| 0 <= j < cols.len() ==> self.is_col((#[trigger] cols@[j])@, j),
        {
            cols.push(hot_col(h, tr, M_PERIOD, nq, cm_leaf(i) * BLOCK));
        }
        for i in 0..CM_ROUNDS
            invariant
                h == self.height_z(),
                tr == self.tr_z(),
                nq == self.n_queries,
                self.fits(),
                cols.len() == self.m_base_z() + 17 + i,
                forall|j: int| 0 <= j < cols.len() ==> self.is_col((#[trigger] cols@[j])@, j),
        {
            cols.push(hot_col(h, tr, M_PERIOD, nq, cm_term(i) * BLOCK + BLOCK - 1));
        }
        proof {
            let want = self.cols_z();
            assert forall|j: int| 0 <= j < want.len() implies #[trigger] cells(cols@)[j] == want[j] by {
                assert(self.is_col(cols@[j]@, j));
                assert(ints(cols@[j]@) =~= want[j]);
            }
            assert(cells(cols@) =~= want);
        }
        cols
    }
}

} // verus!
