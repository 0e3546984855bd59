//! What the fused system forces of a trace: the transcript region is a transcript, and every tile
//! reads its challenges from there, folds its reduced opening to the final evaluation, passes the
//! out-of-domain check, and opens values that are committed to.
use super::fused::{
    cm_leaf_z, cm_term_z, ends_polys, epilogue_z, group_ends_polys, group_leaves_list, group_list,
    group_z, groups_list, leaf_polys, opened_list, per_none, point_bind_list, MonolithAir,
};
use super::fused_trace::{seg_depth, seg_start};
use super::merkle_tile::{leaf_digest, leaf_state};
use super::parts::{
    accept_list, beta_polys, carrier_list, fold_list, index_list, per_select, per_sum, shift_z,
    transcript_list,
};
use super::path_rows::{lemma_path_rows, path_at, path_holds};
use super::query_tile::{fold_along, lemma_fold_along};
use super::region::{
    bound_head_list, index_holds, lemma_beta_row, lemma_bound_head, lemma_carrier_list, lemma_held,
    lemma_index_holds, lemma_index_list, lemma_region, lemma_select_one, lemma_shift, lemma_sum_one,
    lemma_transcript_list, region_col, region_row, slots_z, tile_bound,
};
use super::sponge::{bound, follows, squeezed, trace_inputs, FullTranscriptAir};
use super::super_tile::lemma_leaf_polys;
use super::tiled::{
    head_holds, head_opening, lemma_accept_list, lemma_fold_list, lemma_head_sound, lemma_one,
    lemma_switch,
};
use crate::cols::{count_of, hot_z, last_z, np2};
use crate::expr::{
    gated, holds, lemma_holds_concat, lemma_holds_gated, lemma_holds_push, pair, row_env, satisfied,
    scaled, vanish, Env, Gate,
};
use crate::field::{cong, econg, finv_z, lemma_cong_diff, lemma_red_small, red, two_adic_gen, P};
use crate::fri_merkle::{canonical_cells, lemma_steps_follow};
use crate::gadgets::{
    bind_polys, bit_z, fold_polys, index_bind_polys, link_polys, sponge_link, sponge_start,
};
use crate::merkle::{root_of, take4};
use crate::poseidon2::{lanes, red_seq, round_col, round_polys, round_row, step_z, ROUND_COLS};
use crate::prime::law_bits;
use vstd::arithmetic::power2::pow2;
use vstd::prelude::*;

verus! {

/// The tile of row `r`, and the row in it; negative outside the tiles.
pub open spec fn m_place(air: MonolithAir, r: int) -> (int, int) {
    let d = r - air.tr_z();
    if d < 0 || d / 736 >= air.n_queries {
        (-1, -1)
    } else {
        (d / 736, d % 736)
    }
}

/// The transcript region as a transcript of its own.
pub open spec fn m_transcript(air: MonolithAir) -> FullTranscriptAir {
    FullTranscriptAir { counts: air.counts, binds: air.binds, index_binds: air.index_binds }
}

pub open spec fn on_row(j: int, row: int) -> int {
    if j == row {
        1
    } else {
        0
    }
}

/// What the periodic columns hold at row `r`.
pub open spec fn m_per(air: MonolithAir, p: Seq<int>, r: int) -> bool {
    let (q, j) = m_place(air, r);
    let (m, tr) = (air.m_base_z(), air.tr_z());
    &&& round_row(p, r % 32)
    &&& p[11] == last_z(r)
    &&& r < tr ==> p[12] == count_of(air.counts@, r / 32)
    &&& r < tr ==> p[13] == count_of(air.counts@, r / 32 + 1)
    &&& r < tr ==> p[14] == (if count_of(air.counts@, r / 32 + 1) == 0 {
        1int
    } else {
        0int
    })
    &&& forall|i: int|
        15 <= i < 15 + air.nb_z() + air.ni_z() ==> #[trigger] p[i] == m_transcript(air).col(i, r)
    &&& forall|i: int| 0 <= i < 6 ==> #[trigger] p[air.p_round_z(0) + i] == on_row(j, i)
    &&& forall|i: int|
        0 <= i < air.n_queries ==> #[trigger] p[air.p_query_z(0) + i] == (if j == 0 && i == q {
            1int
        } else {
            0int
        })
    &&& p[m] == on_row(j, 0)
    &&& p[m + 1] == on_row(j, 6)
    &&& p[m + 2] == on_row(j, 32)
    &&& p[m + 3] == on_row(j, 191)
    &&& p[m + 4] == (if r < tr { 1int } else { 0int })
    &&& p[m + 5] == (if j >= 0 { 1int } else { 0int })
    &&& p[m + 6] == (if j >= 32 { 1int } else { 0int })
    &&& p[m + 7] == (if r < tr - 1 { 1int } else { 0int })
    &&& p[m + 8] == on_row(j, 735)
    &&& p[m + 9] == on_row(j, 192)
    &&& p[m + 10] == on_row(j, 351)
    &&& forall|i: int| 0 <= i < 6 ==> #[trigger] p[m + 11 + i] == on_row(j, cm_leaf_z(i) * 32)
    &&& forall|i: int| 0 <= i < 6 ==> #[trigger] p[m + 17 + i] == on_row(j, cm_term_z(i) * 32 + 31)
}

proof fn lemma_m_hot(air: MonolithAir, r: int, row: int)
    requires
        0 <= row < 736,
        0 <= r,
    ensures
        hot_z(r, air.tr_z(), 736, air.n_queries as int, row) == on_row(m_place(air, r).1, row),
{
    let d = r - air.tr_z();
    let e = d - row;
    if d >= 0 {
        if d % 736 == row {
            assert(e % 736 == 0 && e / 736 == d / 736);
        } else if e >= 0 {
            assert(e % 736 != 0);
        }
    }
}

#[verifier::spinoff_prover]
pub proof fn lemma_m_env(air: MonolithAir, t: Seq<Seq<int>>, pv: Seq<int>, r: int)
    requires
        air.fits(),
        0 <= r < air.height_z(),
    ensures
        m_per(air, row_env(t, air.cols_z(), pv, r).per, r),
{
    air.lemma_height();
    let c = air.cols_z();
    let p = row_env(t, c, pv, r).per;
    let h = air.height_z();
    vstd::arithmetic::div_mod::lemma_small_mod(r as nat, h as nat);
    assert forall|j: int| 0 <= j < ROUND_COLS implies #[trigger] p[j] == round_col(j, r % 32) by {
        assert(c[j].len() == 32);
    }
    assert forall|j: int| 11 <= j < air.m_base_z() + 23 implies #[trigger] p[j] == air.col(j, r) by {
        assert(c[j].len() == h);
    }
    let (q, j) = m_place(air, r);
    let m = air.m_base_z();
    assert(p[11] == air.col(11, r) && p[12] == air.col(12, r) && p[13] == air.col(13, r) && p[14]
        == air.col(14, r));
    assert forall|i: int| 0 <= i < 6 implies #[trigger] p[air.p_round_z(0) + i] == on_row(j, i) by {
        assert(p[air.p_round_z(0) + i] == air.col(air.p_round_z(0) + i, r));
        lemma_m_hot(air, r, i);
    }
    assert forall|i: int|
        0 <= i < air.n_queries implies #[trigger] p[air.p_query_z(0) + i] == (if j == 0 && i == q {
        1int
    } else {
        0int
    }) by {
        assert(p[air.p_query_z(0) + i] == air.col(air.p_query_z(0) + i, r));
        let d = r - air.tr_z();
        if d == 736 * i {
            assert(d / 736 == i && d % 736 == 0);
        }
    }
    lemma_m_hot(air, r, 0);
    lemma_m_hot(air, r, 6);
    lemma_m_hot(air, r, 32);
    lemma_m_hot(air, r, 191);
    lemma_m_hot(air, r, 735);
    lemma_m_hot(air, r, 192);
    lemma_m_hot(air, r, 351);
    assert(p[m] == air.col(m, r) && p[m + 1] == air.col(m + 1, r) && p[m + 2] == air.col(m + 2, r)
        && p[m + 3] == air.col(m + 3, r));
    assert(p[m + 4] == air.col(m + 4, r) && p[m + 5] == air.col(m + 5, r) && p[m + 6] == air.col(
        m + 6,
        r,
    ) && p[m + 7] == air.col(m + 7, r));
    assert(p[m + 8] == air.col(m + 8, r) && p[m + 9] == air.col(m + 9, r) && p[m + 10] == air.col(
        m + 10,
        r,
    ));
    assert forall|i: int| 0 <= i < 6 implies #[trigger] p[m + 11 + i] == on_row(
        j,
        cm_leaf_z(i) * 32,
    ) by {
        assert(p[m + 11 + i] == air.col(m + 11 + i, r));
        lemma_m_hot(air, r, cm_leaf_z(i) * 32);
    }
    assert forall|i: int| 0 <= i < 6 implies #[trigger] p[m + 17 + i] == on_row(
        j,
        cm_term_z(i) * 32 + 31,
    ) by {
        assert(p[m + 17 + i] == air.col(m + 17 + i, r));
        lemma_m_hot(air, r, cm_term_z(i) * 32 + 31);
    }
}

/// The opened values at a row.
pub proof fn lemma_opened_list(
    acc: Seq<(Gate, int)>,
    env: Env,
    on: int,
    hold: int,
    ov: int,
    px: int,
    r: int,
    h: int,
)
    requires
        on == 0 || on == 1,
        hold == 0 || hold == 1,
    ensures
        holds(opened_list(acc, env, on, hold, ov, px), r, h) <==> {
            &&& holds(acc, r, h)
            &&& on == 1 ==> cong(env.cur[ov], env.cur[px]) && cong(
                env.cur[ov + 1],
                env.cur[px + 18],
            ) && cong(env.cur[ov + 2], env.cur[px + 27])
            &&& hold == 1 && r != h - 1 ==> cong(env.nxt[ov], env.cur[ov]) && cong(
                env.nxt[ov + 1],
                env.cur[ov + 1],
            ) && cong(env.nxt[ov + 2], env.cur[ov + 2])
        },
{
    let (c, n) = (env.cur, env.nxt);
    let x1 = (Gate::Transition, hold * (n[ov] - c[ov]));
    let x2 = (Gate::Always, on * (c[ov] - c[px]));
    let x3 = (Gate::Transition, hold * (n[ov + 1] - c[ov + 1]));
    let x4 = (Gate::Transition, hold * (n[ov + 2] - c[ov + 2]));
    let x5 = (Gate::Always, on * (c[ov + 1] - c[px + 18]));
    let x6 = (Gate::Always, on * (c[ov + 2] - c[px + 27]));
    let a1 = acc.push(x1);
    let a2 = a1.push(x2);
    let a3 = a2.push(x3);
    let a4 = a3.push(x4);
    let a5 = a4.push(x5);
    lemma_holds_push(acc, x1, r, h);
    lemma_holds_push(a1, x2, r, h);
    lemma_holds_push(a2, x3, r, h);
    lemma_holds_push(a3, x4, r, h);
    lemma_holds_push(a4, x5, r, h);
    lemma_holds_push(a5, x6, r, h);
    lemma_one(hold, n[ov] - c[ov]);
    lemma_one(on, c[ov] - c[px]);
    lemma_one(hold, n[ov + 1] - c[ov + 1]);
    lemma_one(hold, n[ov + 2] - c[ov + 2]);
    lemma_one(on, c[ov + 1] - c[px + 18]);
    lemma_one(on, c[ov + 2] - c[px + 27]);
    lemma_cong_diff(n[ov], c[ov]);
    lemma_cong_diff(c[ov], c[px]);
    lemma_cong_diff(n[ov + 1], c[ov + 1]);
    lemma_cong_diff(n[ov + 2], c[ov + 2]);
    lemma_cong_diff(c[ov + 1], c[px + 18]);
    lemma_cong_diff(c[ov + 2], c[px + 27]);
}

/// The carriers of one fold group at a row.
proof fn lemma_group_list(
    acc: Seq<(Gate, int)>,
    env: Env,
    seed: int,
    hold: int,
    cg: int,
    r: int,
    h: int,
)
    requires
        seed == 0 || seed == 1,
        hold == 0 || hold == 1,
        holds(group_list(acc, env, seed, hold, cg), r, h),
    ensures
        holds(acc, r, h),
        seed == 1 ==> forall|k: int|
            0 <= k < 4 ==> cong(#[trigger] env.cur[cg + k], group_z(env.cur, k)),
        hold == 1 && r != h - 1 ==> forall|k: int|
            0 <= k < 4 ==> cong(#[trigger] env.nxt[cg + k], env.cur[cg + k]),
{
    let s1 = Seq::new(4, |k: int| seed * (env.cur[cg + k] - group_z(env.cur, k)));
    let s2 = Seq::new(4, |k: int| hold * (env.nxt[cg + k] - env.cur[cg + k]));
    let (g1, g2) = (gated(Gate::Always, s1), gated(Gate::Transition, s2));
    lemma_holds_gated(Gate::Always, s1, r, h);
    lemma_holds_gated(Gate::Transition, s2, r, h);
    lemma_holds_concat(acc, g1, r, h);
    lemma_holds_concat(acc + g1, g2, r, h);
    if seed == 1 {
        assert forall|k: int| 0 <= k < 4 implies cong(
            #[trigger] env.cur[cg + k],
            group_z(env.cur, k),
        ) by {
            assert(red(s1[k]) == 0);
            lemma_one(seed, env.cur[cg + k] - group_z(env.cur, k));
            lemma_cong_diff(env.cur[cg + k], group_z(env.cur, k));
        }
    }
    if hold == 1 && r != h - 1 {
        assert forall|k: int| 0 <= k < 4 implies cong(
            #[trigger] env.nxt[cg + k],
            env.cur[cg + k],
        ) by {
            assert(red(s2[k]) == 0);
            lemma_one(hold, env.nxt[cg + k] - env.cur[cg + k]);
            lemma_cong_diff(env.nxt[cg + k], env.cur[cg + k]);
        }
    }
}

/// The carriers of the first `n` fold groups at a row.
proof fn lemma_groups_list(
    acc: Seq<(Gate, int)>,
    env: Env,
    p_round: int,
    hold: int,
    cg: int,
    n: nat,
    r: int,
    h: int,
)
    requires
        forall|i: int|
            0 <= i < n ==> #[trigger] env.per[p_round + i] == 0 || env.per[p_round + i] == 1,
        hold == 0 || hold == 1,
        holds(groups_list(acc, env, p_round, hold, cg, n), r, h),
    ensures
        holds(acc, r, h),
        forall|i: int, k: int|
            #![trigger env.cur[cg + 4 * i + k]]
            0 <= i < n && 0 <= k < 4 && env.per[p_round + i] == 1 ==> cong(
                env.cur[cg + 4 * i + k],
                group_z(env.cur, k),
            ),
        hold == 1 && r != h - 1 ==> forall|i: int, k: int|
            #![trigger env.nxt[cg + 4 * i + k]]
            0 <= i < n && 0 <= k < 4 ==> cong(env.nxt[cg + 4 * i + k], env.cur[cg + 4 * i + k]),
    decreases n,
{
    if n > 0 {
        let m = (n - 1) as nat;
        let a = groups_list(acc, env, p_round, hold, cg, m);
        assert(env.per[p_round + m] == env.per[p_round + n - 1]);
        let at = cg + 4 * (n - 1);
        lemma_group_list(a, env, env.per[p_round + n - 1], hold, at, r, h);
        lemma_groups_list(acc, env, p_round, hold, cg, m, r, h);
        assert forall|i: int, k: int|
            #![trigger env.cur[cg + 4 * i + k]]
            0 <= i < n && 0 <= k < 4 && env.per[p_round + i] == 1 implies cong(
            env.cur[cg + 4 * i + k],
            group_z(env.cur, k),
        ) by {
            if i == m {
                assert(env.cur[at + k] == env.cur[cg + 4 * i + k]);
            }
        }
        if hold == 1 && r != h - 1 {
            assert forall|i: int, k: int|
                #![trigger env.nxt[cg + 4 * i + k]]
                0 <= i < n && 0 <= k < 4 implies cong(
                env.nxt[cg + 4 * i + k],
                env.cur[cg + 4 * i + k],
            ) by {
                if i == m {
                    assert(env.nxt[at + k] == env.nxt[cg + 4 * i + k]);
                }
            }
        }
    }
}

/// The leaf blocks of the first `n` fold groups at a row.
proof fn lemma_group_leaves(
    acc: Seq<(Gate, int)>,
    env: Env,
    c_leaf: int,
    cg: int,
    n: nat,
    r: int,
    h: int,
)
    requires
        holds(group_leaves_list(acc, env, c_leaf, cg, n), r, h),
    ensures
        holds(acc, r, h),
        forall|i: int|
            0 <= i < n ==> vanish(
                leaf_polys(env.cur, #[trigger] env.per[c_leaf + i], cg + 4 * i, 4),
            ),
    decreases n,
{
    if n > 0 {
        let m = (n - 1) as nat;
        let a = group_leaves_list(acc, env, c_leaf, cg, m);
        let l = leaf_polys(env.cur, env.per[c_leaf + n - 1], cg + 4 * (n - 1), 4);
        lemma_holds_gated(Gate::Always, l, r, h);
        lemma_holds_concat(a, gated(Gate::Always, l), r, h);
        lemma_group_leaves(acc, env, c_leaf, cg, m, r, h);
        assert forall|i: int| 0 <= i < n implies vanish(
            leaf_polys(env.cur, #[trigger] env.per[c_leaf + i], cg + 4 * i, 4),
        ) by {
            if i == m {
                assert(env.per[c_leaf + i] == env.per[c_leaf + n - 1]);
            }
        }
    }
}

/// The product of complements of values that are all zero.
pub proof fn lemma_per_none(p: Seq<int>, from: int, n: nat)
    requires
        forall|i: int| 0 <= i < n ==> #[trigger] p[from + i] == 0,
    ensures
        per_none(p, from, n) == 1,
    decreases n,
{
    if n > 0 {
        let m = n - 1;
        lemma_per_none(p, from, m as nat);
        assert(p[from + m] == p[from + n - 1]);
    }
}

/// The opening points at the head of a tile.
pub open spec fn points_hold(row: Seq<int>, pv: Seq<int>, z: int, g: int) -> bool {
    let zeta = pair(pv, 2);
    &&& econg(pair(row, z), zeta)
    &&& econg(pair(row, z + 9), (zeta.0 * g, zeta.1 * g))
    &&& econg(pair(row, z + 18), zeta)
    &&& econg(pair(row, z + 27), zeta)
}

proof fn lemma_point_binds(
    acc: Seq<(Gate, int)>,
    env: Env,
    on: int,
    z: int,
    g: int,
    r: int,
    h: int,
)
    requires
        on == 0 || on == 1,
    ensures
        holds(point_bind_list(acc, env, on, z, g), r, h) <==> holds(acc, r, h) && (on == 1
            ==> points_hold(env.cur, env.pis, z, g)),
{
    let c = env.cur;
    let zeta = pair(env.pis, 2);
    let x1 = (Gate::Always, on * (c[z] - zeta.0));
    let x2 = (Gate::Always, on * (c[z + 1] - zeta.1));
    let x3 = (Gate::Always, on * (c[z + 18] - zeta.0));
    let x4 = (Gate::Always, on * (c[z + 19] - zeta.1));
    let x5 = (Gate::Always, on * (c[z + 27] - zeta.0));
    let x6 = (Gate::Always, on * (c[z + 28] - zeta.1));
    let x7 = (Gate::Always, on * (c[z + 9] - zeta.0 * g));
    let x8 = (Gate::Always, on * (c[z + 10] - zeta.1 * g));
    let a1 = acc.push(x1);
    let a2 = a1.push(x2);
    let a3 = a2.push(x3);
    let a4 = a3.push(x4);
    let a5 = a4.push(x5);
    let a6 = a5.push(x6);
    let a7 = a6.push(x7);
    lemma_holds_push(acc, x1, r, h);
    lemma_holds_push(a1, x2, r, h);
    lemma_holds_push(a2, x3, r, h);
    lemma_holds_push(a3, x4, r, h);
    lemma_holds_push(a4, x5, r, h);
    lemma_holds_push(a5, x6, r, h);
    lemma_holds_push(a6, x7, r, h);
    lemma_holds_push(a7, x8, r, h);
    lemma_one(on, c[z] - zeta.0);
    lemma_one(on, c[z + 1] - zeta.1);
    lemma_one(on, c[z + 18] - zeta.0);
    lemma_one(on, c[z + 19] - zeta.1);
    lemma_one(on, c[z + 27] - zeta.0);
    lemma_one(on, c[z + 28] - zeta.1);
    lemma_one(on, c[z + 9] - zeta.0 * g);
    lemma_one(on, c[z + 10] - zeta.1 * g);
    lemma_cong_diff(c[z], zeta.0);
    lemma_cong_diff(c[z + 1], zeta.1);
    lemma_cong_diff(c[z + 18], zeta.0);
    lemma_cong_diff(c[z + 19], zeta.1);
    lemma_cong_diff(c[z + 27], zeta.0);
    lemma_cong_diff(c[z + 28], zeta.1);
    lemma_cong_diff(c[z + 9], zeta.0 * g);
    lemma_cong_diff(c[z + 10], zeta.1 * g);
}

/// What the transcript and the head of a tile demand at row `r`, row `j` of tile `q`.
#[verifier::opaque]
pub open spec fn head_demand(air: MonolithAir, env: Env, r: int, q: int, j: int) -> bool {
    let (h, tr) = (air.height_z(), air.tr_z());
    let (c, n) = (env.cur, env.nxt);
    let nb = air.nb_z();
    &&& r != h - 1 && (r < tr || j >= 32) ==> vanish(
        round_polys(lanes(c, 0), lanes(n, 0), env.per),
    )
    &&& r == 0 ==> vanish(sponge_start(c, env.per[12]))
    &&& r < tr - 1 ==> vanish(sponge_link(c, n, env.per))
    &&& vanish(bind_polys(c, env.per, env.pis, nb))
    &&& vanish(index_bind_polys(c, env.per, env.pis, nb, air.index_binds@))
    &&& r != h - 1 ==> econg(pair(n, air.carry_z()), pair(c, air.carry_z()))
    &&& env.per[17] == 1 ==> squeezed(c, pair(c, air.carry_z()))
    &&& j == 0 ==> head_holds(c, air.n_terms as int) && econg(pair(c, 29), pair(c, air.carry_z()))
    &&& 0 <= j < nb - 3 ==> econg(pair(c, 4), pair(env.pis, 6 + 2 * j))
    &&& j == 0 ==> index_holds(c, env.pis[2 * nb + q], air.sb_x_z())
}

/// What the fold chain and the out-of-domain check demand.
#[verifier::opaque]
pub open spec fn fold_demand(air: MonolithAir, env: Env, r: int, j: int) -> bool {
    let h = air.height_z();
    let (c, n) = (env.cur, env.nxt);
    let g = two_adic_gen(6);
    &&& r != h - 1 && 0 <= j < air.nb_z() - 3 ==> red(shift_z(env, air.idx_rem_z())) == 0
    &&& r != h - 1 && 0 <= j < air.nb_z() - 3 ==> vanish(fold_polys(c, n))
    &&& j == 6 ==> econg(pair(c, 0), pair(env.pis, air.cap_z() - 2))
    &&& j == 0 ==> econg(epilogue_z(env, 33, air.cap_z() + 8, finv_z(g)), (0, 0))
    &&& j == 0 ==> points_hold(c, env.pis, 31, g)
}

/// What the carriers demand.
#[verifier::opaque]
pub open spec fn carrier_demand(air: MonolithAir, env: Env, r: int, j: int) -> bool {
    let h = air.height_z();
    let c = env.cur;
    let n = env.nxt;
    let ov = air.ov_z();
    &&& j == 0 ==> cong(c[ov], c[35]) && cong(c[ov + 1], c[53]) && cong(c[ov + 2], c[62])
    &&& 0 <= j < 6 ==> forall|k: int|
        0 <= k < 4 ==> cong(#[trigger] c[ov + 3 + 4 * j + k], group_z(c, k))
    &&& r != h - 1 && 0 <= j < 735 ==> forall|i: int|
        0 <= i < 27 ==> cong(#[trigger] n[ov + i], c[ov + i])
}

/// The row of a tile on which path `k` ends.
pub open spec fn seg_end(k: int) -> int {
    32 * (seg_start(k) + seg_depth(k)) + 31
}

/// The first carrier of the leaf of path `k`, from the first of all on.
pub open spec fn seg_col(k: int) -> int {
    if k == 0 {
        0
    } else if k == 1 {
        1
    } else {
        3 + 4 * (k - 2)
    }
}

/// The number of elements of the leaf of path `k`.
pub open spec fn seg_len(k: int) -> int {
    if k == 0 {
        1
    } else if k == 1 {
        2
    } else {
        4
    }
}

/// The public values of the end of path `k`, from those of the first on.
pub open spec fn seg_pub(k: int) -> int {
    if k == 0 {
        0
    } else if k == 1 {
        4
    } else {
        9 + 4 * (k - 2)
    }
}

/// What the Merkle blocks demand.
#[verifier::opaque]
pub open spec fn merkle_demand(air: MonolithAir, env: Env, r: int, j: int) -> bool {
    let h = air.height_z();
    let (c, n) = (env.cur, env.nxt);
    &&& forall|k: int|
        #![trigger seg_start(k)]
        0 <= k < 8 && j == 32 * seg_start(k) ==> leaf_holds(c, air.ov_z() + seg_col(k), seg_len(k))
    &&& j >= 32 ==> red(bit_z(c[12])) == 0
    &&& r != h - 1 && j >= 32 && j % 32 == 31 && (forall|k: int|
        0 <= k < 8 ==> j != #[trigger] seg_end(k)) ==> vanish(link_polys(c, n, 8, 12))
    &&& forall|k: int, i: int|
        #![trigger env.pis[air.cap_z() + seg_pub(k) + i]]
        0 <= k < 8 && 0 <= i < 4 && j == seg_end(k) ==> cong(
            env.pis[air.cap_z() + seg_pub(k) + i],
            c[i],
        )
}

/// The lanes of a row are the `n` cells from `from` on, then zeros.
pub open spec fn leaf_holds(row: Seq<int>, from: int, n: int) -> bool {
    &&& forall|i: int| 0 <= i < n ==> cong(#[trigger] row[i], row[from + i])
    &&& forall|i: int| n <= i < 8 ==> red(#[trigger] row[i]) == 0
}

#[verifier::spinoff_prover]
pub proof fn lemma_head_demand(air: MonolithAir, env: Env, r: int)
    requires
        air.fits(),
        air.nb_z() <= 9,
        0 <= r < air.height_z(),
        m_per(air, env.per, r),
    ensures
        holds(air.head_polys(air.transcript_polys(env), env), r, air.height_z()) <==> head_demand(
            air,
            env,
            r,
            m_place(air, r).0,
            m_place(air, r).1,
        ),
{
    reveal(head_demand);
    let (q, j) = m_place(air, r);
    let h = air.height_z();
    let p = env.per;
    let m = air.m_base_z();
    let nb = air.nb_z();
    air.lemma_height();
    let none = Seq::<(Gate, int)>::empty();
    assert(holds(none, r, h));
    let (on, links) = (p[m + 4] + p[m + 6], p[m + 7]);
    lemma_transcript_list(none, env, on, links, nb, air.index_binds@, r, h);
    let a1 = transcript_list(none, env, on, links, nb, air.index_binds@);
    assert(p[17] == m_transcript(air).col(17, r));
    lemma_carrier_list(a1, env, air.carry_z(), r, h);
    let a2 = carrier_list(a1, env, air.carry_z());
    assert(a2 == air.transcript_polys(env));
    let n = air.n_terms as int;
    lemma_bound_head(a2, env, p[m], air.carry_z(), n, r, h);
    let a3 = bound_head_list(a2, env, p[m], air.carry_z(), n);
    let rounds = nb - 3;
    let b = beta_polys(env, air.p_round_z(0), rounds);
    assert forall|i: int| 0 <= i < rounds implies #[trigger] p[air.p_round_z(0) + i] == (if i == j {
        1int
    } else {
        0int
    }) by {
        assert(p[air.p_round_z(0) + i] == on_row(j, i));
    }
    lemma_beta_row(env, air.p_round_z(0), rounds, j);
    lemma_holds_gated(Gate::Always, b, r, h);
    lemma_holds_concat(a3, gated(Gate::Always, b), r, h);
    let a4 = a3 + gated(Gate::Always, b);
    let nq = air.n_queries as nat;
    let at = if j == 0 {
        q
    } else {
        -1
    };
    lemma_select_one(p, air.p_query_z(0), env.pis, 2 * nb, nq, at);
    let sel = per_select(p, air.p_query_z(0), env.pis, 2 * nb, nq);
    lemma_index_list(a4, env, p[m], sel, air.sb_x_z(), r, h);
    assert(index_list(a4, env, p[m], sel, air.sb_x_z()) == air.head_polys(a2, env));
}

#[verifier::spinoff_prover]
pub proof fn lemma_fold_demand(air: MonolithAir, acc: Seq<(Gate, int)>, env: Env, r: int)
    requires
        air.fits(),
        air.nb_z() <= 9,
        m_per(air, env.per, r),
    ensures
        holds(
            air.fold_and_check_polys(
                acc,
                env,
                two_adic_gen(6),
                finv_z(two_adic_gen(6)),
            ),
            r,
            air.height_z(),
        ) <==> holds(acc, r, air.height_z()) && fold_demand(air, env, r, m_place(air, r).1),
{
    reveal(fold_demand);
    let (q, j) = m_place(air, r);
    let h = air.height_z();
    let p = env.per;
    let m = air.m_base_z();
    let rounds = (air.nb_z() - 3) as nat;
    let g = two_adic_gen(6);
    assert forall|i: int| 0 <= i < rounds implies #[trigger] p[air.p_round_z(0) + i] == (if i == j {
        1int
    } else {
        0int
    }) by {
        assert(p[air.p_round_z(0) + i] == on_row(j, i));
    }
    lemma_sum_one(p, air.p_round_z(0), rounds, j);
    let mask = per_sum(p, air.p_round_z(0), rounds);
    let x = (Gate::Transition, mask * shift_z(env, air.idx_rem_z()));
    lemma_holds_push(acc, x, r, h);
    lemma_one(mask, shift_z(env, air.idx_rem_z()));
    let a1 = acc.push(x);
    lemma_fold_list(a1, env, mask, r, h);
    let a2 = fold_list(a1, env, mask);
    let (tf, tl) = (p[m], p[m + 1]);
    lemma_accept_list(a2, env, tl, air.cap_z() - 2, r, h);
    let a3 = accept_list(a2, env, tl, air.cap_z() - 2);
    let check = epilogue_z(env, 33, air.cap_z() + 8, finv_z(g));
    let (y1, y2) = ((Gate::Always, tf * check.0), (Gate::Always, tf * check.1));
    lemma_holds_push(a3, y1, r, h);
    lemma_holds_push(a3.push(y1), y2, r, h);
    lemma_one(tf, check.0);
    lemma_one(tf, check.1);
    lemma_red_small(0);
    let a4 = a3.push(y1).push(y2);
    assert(air.z_z(0) == 31);
    assert(air.fold_and_check_polys(acc, env, g, finv_z(g)) == point_bind_list(a4, env, tf, 31, g));
    lemma_point_binds(a4, env, tf, 31, g, r, h);
}

#[verifier::spinoff_prover]
proof fn lemma_carrier_demand(air: MonolithAir, acc: Seq<(Gate, int)>, env: Env, r: int)
    requires
        air.fits(),
        m_per(air, env.per, r),
        holds(air.carrier_polys(acc, env), r, air.height_z()),
    ensures
        holds(acc, r, air.height_z()),
        carrier_demand(air, env, r, m_place(air, r).1),
{
    reveal(carrier_demand);
    let (q, j) = m_place(air, r);
    let h = air.height_z();
    let p = env.per;
    let m = air.m_base_z();
    let (c, n) = (env.cur, env.nxt);
    let ov = air.ov_z();
    let hold = p[m + 5] * (1 - p[m + 8]);
    assert(hold == (if 0 <= j && j != 735 { 1int } else { 0int })) by (nonlinear_arith)
        requires
            hold == p[m + 5] * (1 - p[m + 8]),
            p[m + 5] == (if j >= 0 { 1int } else { 0int }),
            p[m + 8] == (if j == 735 { 1int } else { 0int }),
    ;
    let a = opened_list(acc, env, p[m], hold, ov, 35);
    let cg = ov + 3;
    assert(air.cg_z(0, 0) == cg && air.z_z(0) + 4 == 35);
    assert forall|i: int|
        0 <= i < 6 implies #[trigger] p[air.p_round_z(0) + i] == 0 || p[air.p_round_z(0) + i] == 1 by {
        assert(p[air.p_round_z(0) + i] == on_row(j, i));
    }
    lemma_groups_list(a, env, air.p_round_z(0), hold, cg, 6, r, h);
    lemma_opened_list(acc, env, p[m], hold, ov, 35, r, h);
    if 0 <= j < 6 {
        assert(p[air.p_round_z(0) + j] == on_row(j, j));
        assert forall|k: int| 0 <= k < 4 implies cong(
            #[trigger] c[ov + 3 + 4 * j + k],
            group_z(c, k),
        ) by {
            assert(c[cg + 4 * j + k] == c[ov + 3 + 4 * j + k]);
        }
    }
    if r != h - 1 && 0 <= j < 735 {
        assert forall|i: int| 0 <= i < 27 implies cong(#[trigger] n[ov + i], c[ov + i]) by {
            if i >= 3 {
                let (a, b) = ((i - 3) / 4, (i - 3) % 4);
                assert(cg + 4 * a + b == ov + i);
                assert(cong(n[cg + 4 * a + b], c[cg + 4 * a + b]));
            }
        }
    }
}

/// The ends of the paths at a row.
proof fn lemma_ends(air: MonolithAir, env: Env, j: int)
    requires
        env.per[air.m_base_z() + 3] == on_row(j, 191),
        env.per[air.m_base_z() + 10] == on_row(j, 351),
        forall|i: int|
            0 <= i < 6 ==> #[trigger] env.per[air.m_base_z() + 17 + i] == on_row(
                j,
                cm_term_z(i) * 32 + 31,
            ),
        vanish(
            ends_polys(
                env,
                env.per[air.m_base_z() + 3],
                env.per[air.m_base_z() + 10],
                air.cap_z(),
            ),
        ),
        vanish(group_ends_polys(env, air.m_base_z() + 17, air.cap_z() + 9)),
    ensures
        forall|k: int, i: int|
            #![trigger env.pis[air.cap_z() + seg_pub(k) + i]]
            0 <= k < 8 && 0 <= i < 4 && j == seg_end(k) ==> cong(
                env.pis[air.cap_z() + seg_pub(k) + i],
                env.cur[i],
            ),
{
    let m = air.m_base_z();
    let p = env.per;
    let cap = air.cap_z();
    let e = ends_polys(env, p[m + 3], p[m + 10], cap);
    let g = group_ends_polys(env, m + 17, cap + 9);
    assert forall|k: int, i: int|
        #![trigger env.pis[cap + seg_pub(k) + i]]
        0 <= k < 8 && 0 <= i < 4 && j == seg_end(k) implies cong(
        env.pis[cap + seg_pub(k) + i],
        env.cur[i],
    ) by {
        let v = env.pis[cap + seg_pub(k) + i];
        lemma_cong_diff(env.cur[i], v);
        lemma_one(1, env.cur[i] - v);
        if k == 0 {
            assert((2 * i) % 2 == 0 && (2 * i) / 2 == i);
            assert(red(e[2 * i]) == 0);
        } else if k == 1 {
            assert((2 * i + 1) % 2 == 1 && (2 * i + 1) / 2 == i);
            assert(red(e[2 * i + 1]) == 0);
        } else {
            let x = 4 * (k - 2) + i;
            assert(x / 4 == k - 2 && x % 4 == i);
            assert(red(g[x]) == 0);
            assert(p[m + 17 + (k - 2)] == on_row(j, cm_term_z(k - 2) * 32 + 31));
            assert(cap + 9 + x == cap + seg_pub(k) + i);
        }
    }
}

#[verifier::spinoff_prover]
proof fn lemma_merkle_demand(air: MonolithAir, acc: Seq<(Gate, int)>, env: Env, r: int)
    requires
        air.fits(),
        m_per(air, env.per, r),
        holds(air.merkle_polys(acc, env), r, air.height_z()),
        r % 32 == m_place(air, r).1 % 32 || m_place(air, r).1 < 0,
    ensures
        holds(acc, r, air.height_z()),
        merkle_demand(air, env, r, m_place(air, r).1),
{
    reveal(merkle_demand);
    let (q, j) = m_place(air, r);
    let h = air.height_z();
    let p = env.per;
    let m = air.m_base_z();
    let (c, n) = (env.cur, env.nxt);
    let (ov, cg) = (air.ov_z(), air.ov_z() + 3);
    assert(air.cg_z(0, 0) == cg && air.qc_z(0) == ov + 1);
    let l1 = leaf_polys(c, p[m + 2], ov, 1);
    let l2 = leaf_polys(c, p[m + 9], ov + 1, 2);
    let (g1, g2) = (gated(Gate::Always, l1), gated(Gate::Always, l2));
    let a2 = acc + g1 + g2;
    let a3 = group_leaves_list(a2, env, m + 11, cg, 6);
    let x = (Gate::Always, p[m + 6] * bit_z(c[12]));
    let a4 = a3.push(x);
    let none = (1 - p[m + 3]) * (1 - p[m + 10]) * per_none(p, m + 17, 6);
    let link = p[m + 6] * p[11] * (1 - p[m + 8]) * none;
    let ls = link_polys(c, n, 8, 12);
    let s5 = scaled(link, ls);
    let g5 = gated(Gate::Transition, s5);
    let e6 = ends_polys(env, p[m + 3], p[m + 10], air.cap_z());
    let g6 = gated(Gate::Always, e6);
    let e7 = group_ends_polys(env, m + 17, air.cap_z() + 9);
    let g7 = gated(Gate::Always, e7);
    assert(air.merkle_polys(acc, env) == a4 + g5 + g6 + g7);
    lemma_holds_concat(a4 + g5 + g6, g7, r, h);
    lemma_holds_concat(a4 + g5, g6, r, h);
    lemma_holds_concat(a4, g5, r, h);
    lemma_holds_gated(Gate::Transition, s5, r, h);
    lemma_holds_gated(Gate::Always, e6, r, h);
    lemma_holds_gated(Gate::Always, e7, r, h);
    lemma_holds_push(a3, x, r, h);
    lemma_one(p[m + 6], bit_z(c[12]));
    lemma_group_leaves(a2, env, m + 11, cg, 6, r, h);
    lemma_holds_concat(acc + g1, g2, r, h);
    lemma_holds_concat(acc, g1, r, h);
    lemma_holds_gated(Gate::Always, l1, r, h);
    lemma_holds_gated(Gate::Always, l2, r, h);
    lemma_ends(air, env, j);
    lemma_leaf_polys(c, p[m + 2], ov, 1);
    lemma_leaf_polys(c, p[m + 9], ov + 1, 2);
    assert forall|k: int|
        #![trigger seg_start(k)]
        0 <= k < 8 && j == 32 * seg_start(k) implies leaf_holds(c, ov + seg_col(k), seg_len(k)) by {
        if k >= 2 {
            let i = k - 2;
            assert(p[m + 11 + i] == on_row(j, cm_leaf_z(i) * 32));
            lemma_leaf_polys(c, p[m + 11 + i], cg + 4 * i, 4);
            assert(cg + 4 * i == ov + seg_col(k));
        }
    }
    if j >= 32 && j % 32 == 31 && (forall|k: int| 0 <= k < 8 ==> j != #[trigger] seg_end(k)) {
        assert(j != seg_end(0) && j != seg_end(1));
        assert forall|i: int| 0 <= i < 6 implies #[trigger] p[m + 17 + i] == 0 by {
            assert(j != seg_end(i + 2));
        }
        lemma_per_none(p, m + 17, 6);
        assert(j != seg_end(7));
        assert(none == 1);
        assert(link == 1);
        lemma_switch(link, ls);
    }
}

/// Tiles start at whole blocks.
pub proof fn lemma_m_mod(air: MonolithAir, r: int)
    requires
        air.fits(),
        0 <= r,
    ensures
        r % 32 == m_place(air, r).1 % 32 || m_place(air, r).1 < 0,
{
    let (q, j) = m_place(air, r);
    assert(air.tr_z() % 32 == 0);
    if j >= 0 {
        let d = r - air.tr_z();
        assert(j == d - 736 * (d / 736));
    }
}

#[verifier::spinoff_prover]
proof fn lemma_m_demands(air: MonolithAir, e: Env, r: int)
    requires
        air.fits(),
        air.nb_z() <= 9,
        0 <= r < air.height_z(),
        m_per(air, e.per, r),
        holds(air.polys(e), r, air.height_z()),
    ensures
        head_demand(air, e, r, m_place(air, r).0, m_place(air, r).1),
        fold_demand(air, e, r, m_place(air, r).1),
        carrier_demand(air, e, r, m_place(air, r).1),
        merkle_demand(air, e, r, m_place(air, r).1),
{
    lemma_m_mod(air, r);
    let g = two_adic_gen(6);
    let a1 = air.head_polys(air.transcript_polys(e), e);
    let a2 = air.fold_and_check_polys(a1, e, g, finv_z(g));
    let a3 = air.carrier_polys(a2, e);
    assert(air.polys(e) == air.merkle_polys(a3, e));
    lemma_merkle_demand(air, a3, e, r);
    lemma_carrier_demand(air, a2, e, r);
    lemma_fold_demand(air, a1, e, r);
    lemma_head_demand(air, e, r);
}

/// All that is demanded of a row.
#[verifier::opaque]
pub open spec fn m_row(air: MonolithAir, t: Seq<Seq<int>>, pv: Seq<int>, r: int) -> bool {
    let e = row_env(t, air.cols_z(), pv, r);
    let (q, j) = m_place(air, r);
    &&& m_per(air, e.per, r)
    &&& head_demand(air, e, r, q, j)
    &&& fold_demand(air, e, r, j)
    &&& carrier_demand(air, e, r, j)
    &&& merkle_demand(air, e, r, j)
}

proof fn lemma_m_row(air: MonolithAir, t: Seq<Seq<int>>, pv: Seq<int>, r: int)
    requires
        air.fits(),
        air.nb_z() <= 9,
        t.len() == air.height_z(),
        satisfied(|env: Env| air.polys(env), t, air.cols_z(), pv),
        0 <= r < t.len(),
    ensures
        m_row(air, t, pv, r),
{
    reveal(m_row);
    let polys = |env: Env| air.polys(env);
    let e = row_env(t, air.cols_z(), pv, r);
    assert(holds(polys(e), r, t.len() as int));
    assert(holds(air.polys(e), r, air.height_z()));
    lemma_m_env(air, t, pv, r);
    lemma_m_demands(air, e, r);
}

/// A trace that meets the constraints of a system of full shape: six rounds, four terms or more, and
/// the bound blocks in the transcript region.
#[verifier::opaque]
pub open spec fn m_accepted(air: MonolithAir, t: Seq<Seq<int>>, pv: Seq<int>) -> bool {
    &&& air.fits()
    &&& air.nb_z() == 9
    &&& m_transcript(air).wf()
    &&& t.len() == air.height_z()
    &&& canonical_cells(t, air.fused_w_z())
    &&& satisfied(|env: Env| air.polys(env), t, air.cols_z(), pv)
}

/// The first row of tile `q`.
pub open spec fn m_head(air: MonolithAir, q: int) -> int {
    air.tr_z() + 736 * q
}

/// Row `j` of tile `q` as the constraints see it.
#[verifier::opaque]
pub open spec fn m_env(air: MonolithAir, t: Seq<Seq<int>>, pv: Seq<int>, q: int, j: int) -> Env {
    row_env(t, air.cols_z(), pv, m_head(air, q) + j)
}

/// Cells are canonical.
proof fn lemma_m_cell(air: MonolithAir, t: Seq<Seq<int>>, pv: Seq<int>, r: int, c: int)
    requires
        m_accepted(air, t, pv),
        0 <= r < t.len(),
        0 <= c < air.fused_w_z(),
    ensures
        0 <= t[r][c] < P,
        red(t[r][c]) == t[r][c],
{
    reveal(m_accepted);
    assert(0 <= t[r][c] < P);
    lemma_red_small(t[r][c]);
}

/// Row `j` of tile `q`.
proof fn lemma_m_at(air: MonolithAir, t: Seq<Seq<int>>, pv: Seq<int>, q: int, j: int)
    requires
        m_accepted(air, t, pv),
        0 <= q < air.n_queries,
        0 <= j < 736,
    ensures
        ({
            let r = m_head(air, q) + j;
            let e = m_env(air, t, pv, q, j);
            &&& 0 <= r < t.len() && t.len() == air.height_z() && air.nb_z() == 9
            &&& e.cur == t[r]
            &&& r + 1 < t.len() ==> e.nxt == t[r + 1]
            &&& j < 735 ==> r + 1 < t.len()
            &&& e.pis == pv
            &&& r % 32 == j % 32
            &&& round_row(e.per, j % 32)
            &&& head_demand(air, e, r, q, j)
            &&& fold_demand(air, e, r, j)
            &&& carrier_demand(air, e, r, j)
            &&& merkle_demand(air, e, r, j)
        }),
{
    reveal(m_accepted);
    reveal(m_env);
    reveal(m_row);
    air.lemma_height();
    let r = m_head(air, q) + j;
    let d = r - air.tr_z();
    assert(d / 736 == q && d % 736 == j);
    assert(m_place(air, r) == (q, j));
    assert(736 * q + 736 <= 736 * air.n_queries);
    lemma_m_row(air, t, pv, r);
    lemma_m_mod(air, r);
}

/// The transcript region of an accepted trace.
proof fn lemma_m_region(air: MonolithAir, t: Seq<Seq<int>>, pv: Seq<int>)
    requires
        m_accepted(air, t, pv),
    ensures
        follows(trace_inputs(t, np2(air.counts.len() as int) as nat), air.counts@),
        bound(m_transcript(air), trace_inputs(t, np2(air.counts.len() as int) as nat), pv),
{
    reveal(m_accepted);
    let ft = m_transcript(air);
    air.lemma_height();
    let pc = air.cols_z();
    assert forall|r: int| 0 <= r < ft.padded_z() * 32 implies region_row(
        ft,
        #[trigger] row_env(t, pc, pv, r),
        r,
    ) by {
        lemma_m_row(air, t, pv, r);
        reveal(m_row);
        reveal(head_demand);
        let p = row_env(t, pc, pv, r).per;
        assert forall|i: int| 0 <= i < 15 + ft.binds.len() + ft.index_binds@.len() implies #[trigger]
            p[i] == region_col(ft, i, r) by {}
    }
    assert(canonical_cells(t, 8)) by {
        assert forall|r: int, c: int|
            #![trigger t[r][c]]
            0 <= r < t.len() && 0 <= c < 8 implies 0 <= t[r][c] < P by {}
    }
    lemma_region(ft, t, pc, pv);
}

/// The combination challenge is the same on all rows: the third bound one.
proof fn lemma_m_alpha(air: MonolithAir, t: Seq<Seq<int>>, pv: Seq<int>, r: int)
    requires
        m_accepted(air, t, pv),
        0 <= r < t.len(),
    ensures
        econg(pair(t[r], air.carry_z()), pair(pv, 4)),
{
    reveal(m_accepted);
    air.lemma_height();
    let carry = air.carry_z();
    assert forall|i: int|
        #![trigger t[i]]
        0 <= i < t.len() - 1 implies econg(pair(t[i + 1], carry), pair(t[i], carry)) by {
        lemma_m_row(air, t, pv, i);
        reveal(m_row);
        reveal(head_demand);
    }
    assert(air.binds@[2] < m_transcript(air).padded_z());
    let at = air.binds@[2] * 32 + 31;
    lemma_m_row(air, t, pv, at);
    let e = row_env(t, air.cols_z(), pv, at);
    assert(e.cur == t[at] && e.pis == pv);
    assert(e.per[17] == m_transcript(air).col(17, at)) by {
        reveal(m_row);
    }
    assert(vanish(bind_polys(t[at], e.per, pv, air.nb_z())) && squeezed(t[at], pair(t[at], carry))) by {
        reveal(m_row);
        reveal(head_demand);
    }
    let b = bind_polys(t[at], e.per, pv, air.nb_z());
    assert(red(b[4]) == 0 && red(b[5]) == 0);
    lemma_one(1, t[at][3] - pv[4]);
    lemma_one(1, t[at][2] - pv[5]);
    lemma_cong_diff(t[at][3], pv[4]);
    lemma_cong_diff(t[at][2], pv[5]);
    if r <= at {
        lemma_held(t, carry, r, at);
    } else {
        lemma_held(t, carry, at, r);
    }
}

/// The arithmetic of a tile.
proof fn lemma_m_arith(air: MonolithAir, t: Seq<Seq<int>>, pv: Seq<int>, q: int)
    requires
        m_accepted(air, t, pv),
        0 <= q < air.n_queries,
    ensures
        tile_bound(t, m_head(air, q), pv, 9, q, air.idx_rem_z()),
        econg(
            pair(pv, air.cap_z() - 2),
            fold_along(
                head_opening(t[m_head(air, q)], air.n_terms as int),
                t,
                m_head(air, q),
                6,
            ),
        ),
{
    let base = m_head(air, q);
    let n = air.n_terms as int;
    let rem = air.idx_rem_z();
    lemma_m_at(air, t, pv, q, 0);
    lemma_m_alpha(air, t, pv, base);
    let felt = pv[18 + q];
    assert(head_holds(t[base], n) && econg(pair(t[base], 29), pair(t[base], air.carry_z()))
        && index_holds(t[base], felt, air.sb_x_z())) by {
        reveal(head_demand);
    }
    lemma_head_sound(t[base], n);
    lemma_index_holds(t[base], felt, air.sb_x_z());
    assert forall|j: int|
        #![trigger t[base + j]]
        0 <= j < 6 implies vanish(fold_polys(t[base + j], t[base + j + 1])) && econg(
        pair(t[base + j], 4),
        pair(pv, 6 + 2 * j),
    ) && red(t[base + j][rem] - 2 * t[base + j + 1][rem] - t[base + j][6]) == 0 by {
        lemma_m_at(air, t, pv, q, j);
        reveal(head_demand);
        reveal(fold_demand);
    }
    lemma_fold_along(t, head_opening(t[base], n), base, 6);
    assert(econg(pair(t[base + 6], 0), pair(pv, air.cap_z() - 2))) by {
        lemma_m_at(air, t, pv, q, 6);
        reveal(fold_demand);
    }
    assert forall|k: nat|
        #![trigger slots_z(t, base, k)]
        k <= 6 implies cong(red(felt) % 1024, slots_z(t, base, k) + pow2(k) * t[base + k][rem]) by {
        lemma_shift(t, base, rem, k);
    }
}

/// The carriers of a tile are the same on all its rows.
proof fn lemma_m_held(air: MonolithAir, t: Seq<Seq<int>>, pv: Seq<int>, q: int, j: int, i: int)
    requires
        m_accepted(air, t, pv),
        0 <= q < air.n_queries,
        0 <= j < 736,
        0 <= i < 27,
    ensures
        t[m_head(air, q) + j][air.ov_z() + i] == t[m_head(air, q)][air.ov_z() + i],
    decreases j,
{
    let base = m_head(air, q);
    let col = air.ov_z() + i;
    if j > 0 {
        lemma_m_held(air, t, pv, q, j - 1, i);
        lemma_m_at(air, t, pv, q, j - 1);
        let r = base + (j - 1);
        assert(r + 1 == base + j);
        let e = m_env(air, t, pv, q, j - 1);
        assert(cong(e.nxt[air.ov_z() + i], e.cur[air.ov_z() + i])) by {
            reveal(carrier_demand);
        }
        lemma_m_cell(air, t, pv, r, col);
        lemma_m_cell(air, t, pv, r + 1, col);
    } else {
        assert(base + 0 == base);
    }
}

/// The leaf of path `k` of the tile at `base`: what the tile holds of it.
pub open spec fn held_leaf(air: MonolithAir, t: Seq<Seq<int>>, base: int, k: int) -> Seq<int> {
    Seq::new(seg_len(k) as nat, |i: int| t[base][air.ov_z() + seg_col(k) + i])
}

/// The rows of path `k` of a tile start from the leaf that the tile holds.
proof fn lemma_m_leaf(air: MonolithAir, t: Seq<Seq<int>>, pv: Seq<int>, q: int, k: int)
    requires
        m_accepted(air, t, pv),
        0 <= q < air.n_queries,
        0 <= k < 8,
    ensures
        lanes(t[m_head(air, q) + 32 * seg_start(k)], 0) == leaf_state(
            held_leaf(air, t, m_head(air, q), k),
        ),
{
    let base = m_head(air, q);
    let j = 32 * seg_start(k);
    let row = t[base + j];
    let leaf = held_leaf(air, t, base, k);
    lemma_m_at(air, t, pv, q, j);
    assert(leaf_holds(row, air.ov_z() + seg_col(k), seg_len(k))) by {
        reveal(merkle_demand);
    }
    assert forall|i: int| 0 <= i < 8 implies #[trigger] lanes(row, 0)[i] == leaf_state(leaf)[i] by {
        lemma_m_cell(air, t, pv, base + j, i);
        if i < seg_len(k) {
            assert(cong(row[i], row[air.ov_z() + seg_col(k) + i]));
            lemma_m_held(air, t, pv, q, j, seg_col(k) + i);
            assert(air.ov_z() + (seg_col(k) + i) == air.ov_z() + seg_col(k) + i);
            lemma_m_cell(air, t, pv, base + j, air.ov_z() + seg_col(k) + i);
        } else {
            assert(red(row[i]) == 0);
        }
    }
    assert(lanes(row, 0) =~= leaf_state(leaf));
}

/// A row of a path follows from the one before it in its block.
proof fn lemma_m_step(air: MonolithAir, t: Seq<Seq<int>>, pv: Seq<int>, q: int, j: int)
    requires
        m_accepted(air, t, pv),
        canonical_cells(t, 13),
        0 <= q < air.n_queries,
        32 <= j < 735,
        j % 32 != 31,
    ensures
        lanes(t[m_head(air, q) + j + 1], 0) == red_seq(
            step_z(j % 32, lanes(t[m_head(air, q) + j], 0)),
        ),
{
    let r = m_head(air, q) + j;
    lemma_m_at(air, t, pv, q, j);
    let e = m_env(air, t, pv, q, j);
    assert(vanish(round_polys(lanes(e.cur, 0), lanes(e.nxt, 0), e.per))) by {
        reveal(head_demand);
    }
    lemma_steps_follow(t, e, r, 13);
}

/// A block that is not the first of its path is linked to the one before it.
proof fn lemma_m_link(air: MonolithAir, t: Seq<Seq<int>>, pv: Seq<int>, q: int, j: int)
    requires
        m_accepted(air, t, pv),
        0 <= q < air.n_queries,
        32 <= j < 735,
        j % 32 == 31,
        forall|k: int| 0 <= k < 8 ==> j != #[trigger] seg_end(k),
    ensures
        ({
            let r = m_head(air, q) + j;
            &&& vanish(link_polys(t[r], t[r + 1], 8, 12))
            &&& t[r + 1][12] == 0 || t[r + 1][12] == 1
        }),
{
    let r = m_head(air, q) + j;
    lemma_m_at(air, t, pv, q, j);
    lemma_m_at(air, t, pv, q, j + 1);
    assert(m_head(air, q) + (j + 1) == r + 1);
    assert(vanish(link_polys(t[r], t[r + 1], 8, 12)) && red(bit_z(t[r + 1][12])) == 0) by {
        reveal(merkle_demand);
    }
    law_bits(t[r + 1][12]);
    lemma_m_cell(air, t, pv, r + 1, 12);
}

/// The rows of path `k` of a tile.
proof fn lemma_m_path(air: MonolithAir, t: Seq<Seq<int>>, pv: Seq<int>, q: int, k: int)
    requires
        m_accepted(air, t, pv),
        0 <= q < air.n_queries,
        0 <= k < 8,
    ensures
        canonical_cells(t, 13),
        path_holds(
            t,
            m_head(air, q) + 32 * seg_start(k),
            held_leaf(air, t, m_head(air, q), k),
            seg_depth(k) as nat,
        ),
{
    let base = m_head(air, q);
    let at = base + 32 * seg_start(k);
    let d = seg_depth(k) as nat;
    assert(canonical_cells(t, 13)) by {
        assert forall|r: int, c: int|
            #![trigger t[r][c]]
            0 <= r < t.len() && 0 <= c < 13 implies 0 <= t[r][c] < P by {
            lemma_m_cell(air, t, pv, r, c);
        }
    }
    lemma_m_leaf(air, t, pv, q, k);
    let s = 32 * seg_start(k);
    assert(s + 32 * (d + 1) <= 736 && s % 32 == 0 && s >= 32);
    lemma_m_at(air, t, pv, q, s + 32 * (d + 1) - 1);
    lemma_m_at(air, t, pv, q, 0);
    assert forall|j: int|
        #![trigger t[at + j]]
        1 <= j < 32 * (d + 1) && j % 32 != 0 implies lanes(t[at + j], 0) == red_seq(
        step_z(j % 32 - 1, lanes(t[at + j - 1], 0)),
    ) by {
        let i = s + j - 1;
        assert(i % 32 == j % 32 - 1);
        lemma_m_step(air, t, pv, q, i);
        assert(base + i == at + j - 1 && base + i + 1 == at + j);
    }
    assert forall|x: int|
        #![trigger t[at + 32 * x]]
        1 <= x <= d implies vanish(link_polys(t[at + 32 * x - 1], t[at + 32 * x], 8, 12)) && (t[at
        + 32 * x][12] == 0 || t[at + 32 * x][12] == 1) by {
        let i = s + 32 * x - 1;
        assert(i % 32 == 31);
        assert forall|o: int| 0 <= o < 8 implies i != #[trigger] seg_end(o) by {
            lemma_seg_end(k, o, x);
        }
        lemma_m_link(air, t, pv, q, i);
        assert(base + i == at + 32 * x - 1 && base + i + 1 == at + 32 * x);
    }
}

/// No path ends inside another one.
proof fn lemma_seg_end(k: int, o: int, x: int)
    requires
        0 <= k < 8,
        0 <= o < 8,
        1 <= x <= seg_depth(k),
    ensures
        32 * seg_start(k) + 32 * x - 1 != seg_end(o),
{
}

/// The opened values of a tile: what its paths start from is what its arithmetic reads.
pub open spec fn opened_bound(air: MonolithAir, t: Seq<Seq<int>>, base: int) -> bool {
    let ov = air.ov_z();
    &&& cong(t[base][ov], t[base][35])
    &&& cong(t[base][ov + 1], t[base][53])
    &&& cong(t[base][ov + 2], t[base][62])
    &&& forall|j: int, k: int|
        #![trigger t[base][ov + 3 + 4 * j + k]]
        0 <= j < 6 && 0 <= k < 4 ==> cong(t[base][ov + 3 + 4 * j + k], group_z(t[base + j], k))
}

proof fn lemma_m_opened(air: MonolithAir, t: Seq<Seq<int>>, pv: Seq<int>, q: int)
    requires
        m_accepted(air, t, pv),
        0 <= q < air.n_queries,
    ensures
        opened_bound(air, t, m_head(air, q)),
{
    let base = m_head(air, q);
    let ov = air.ov_z();
    lemma_m_at(air, t, pv, q, 0);
    assert(base + 0 == base);
    assert(cong(t[base][ov], t[base][35]) && cong(t[base][ov + 1], t[base][53]) && cong(
        t[base][ov + 2],
        t[base][62],
    )) by {
        reveal(carrier_demand);
    }
    assert forall|j: int, i: int|
        #![trigger t[base][ov + 3 + 4 * j + i]]
        0 <= j < 6 && 0 <= i < 4 implies cong(t[base][ov + 3 + 4 * j + i], group_z(t[base + j], i)) by {
        lemma_m_at(air, t, pv, q, j);
        lemma_m_held(air, t, pv, q, j, 3 + 4 * j + i);
        assert(ov + (3 + 4 * j + i) == ov + 3 + 4 * j + i);
        let e = m_env(air, t, pv, q, j);
        assert(cong(e.cur[ov + 3 + 4 * j + i], group_z(e.cur, i))) by {
            reveal(carrier_demand);
        }
    }
}

/// Whatever trace meets the constraints, its first rows are a transcript that follows the schedule
/// and gives the public challenges and index elements, and every tile reads its challenges and its
/// index from there and folds its reduced opening to the public evaluation.
pub proof fn law_monolith_queries(air: MonolithAir, t: Seq<Seq<int>>, pv: Seq<int>, q: int)
    requires
        m_accepted(air, t, pv),
        0 <= q < air.n_queries,
    ensures
        follows(trace_inputs(t, np2(air.counts.len() as int) as nat), air.counts@),
        bound(m_transcript(air), trace_inputs(t, np2(air.counts.len() as int) as nat), pv),
        tile_bound(t, m_head(air, q), pv, 9, q, air.idx_rem_z()),
        econg(
            pair(pv, air.cap_z() - 2),
            fold_along(
                head_opening(t[m_head(air, q)], air.n_terms as int),
                t,
                m_head(air, q),
                6,
            ),
        ),
{
    lemma_m_region(air, t, pv);
    lemma_m_arith(air, t, pv, q);
}

/// Whatever trace meets the constraints, the opening points of every tile are the bound
/// out-of-domain point and its successor, and the opened values pass the check there.
pub proof fn law_monolith_checked(air: MonolithAir, t: Seq<Seq<int>>, pv: Seq<int>, q: int)
    requires
        m_accepted(air, t, pv),
        0 <= q < air.n_queries,
    ensures
        points_hold(t[m_head(air, q)], pv, 31, two_adic_gen(6)),
        econg(
            epilogue_z(
                row_env(t, air.cols_z(), pv, m_head(air, q)),
                33,
                air.cap_z() + 8,
                finv_z(two_adic_gen(6)),
            ),
            (0, 0),
        ),
{
    reveal(fold_demand);
    reveal(m_env);
    lemma_m_at(air, t, pv, q, 0);
    assert(m_head(air, q) + 0 == m_head(air, q));
}

/// Whatever trace meets the constraints, the values that the arithmetic of a tile reads are leaves
/// of the committed trees: the digest of each folds to its public entry along a path of the tile.
pub proof fn law_monolith_opened(air: MonolithAir, t: Seq<Seq<int>>, pv: Seq<int>, q: int, k: int)
    requires
        m_accepted(air, t, pv),
        0 <= q < air.n_queries,
        0 <= k < 8,
    ensures
        opened_bound(air, t, m_head(air, q)),
        forall|i: int|
            0 <= i < 4 ==> cong(
                #[trigger] pv[air.cap_z() + seg_pub(k) + i],
                root_of(
                    leaf_digest(held_leaf(air, t, m_head(air, q), k)),
                    path_at(t, m_head(air, q) + 32 * seg_start(k), seg_depth(k) as nat),
                )[i],
            ),
{
    let base = m_head(air, q);
    lemma_m_opened(air, t, pv, q);
    let (at, d) = (base + 32 * seg_start(k), seg_depth(k) as nat);
    let leaf = held_leaf(air, t, base, k);
    lemma_m_path(air, t, pv, q, k);
    lemma_path_rows(t, at, leaf, d, d);
    let j = seg_end(k);
    assert(0 <= j < 736);
    assert(at + 32 * d + 31 == base + j);
    lemma_m_at(air, t, pv, q, j);
    let e = m_env(air, t, pv, q, j);
    let root = root_of(leaf_digest(leaf), path_at(t, at, d));
    assert(take4(lanes(t[base + j], 0)) == root);
    assert forall|i: int| 0 <= i < 4 implies cong(
        #[trigger] pv[air.cap_z() + seg_pub(k) + i],
        root[i],
    ) by {
        assert(take4(lanes(t[base + j], 0))[i] == t[base + j][0 + i]);
        assert(e.pis[air.cap_z() + seg_pub(k) + i] == pv[air.cap_z() + seg_pub(k) + i]);
        reveal(merkle_demand);
    }
}

} // verus!
