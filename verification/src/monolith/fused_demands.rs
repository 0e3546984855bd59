//! What the constraints of the fused system demand of a row is enough for them.
use super::fused::{
    cm_term_z, ends_polys, group_ends_polys, group_leaves_list, group_list, group_z, groups_list,
    leaf_polys, opened_list, per_none, MonolithAir,
};
use super::fused_laws::{
    carrier_demand, fold_demand, head_demand, leaf_holds, lemma_fold_demand, lemma_head_demand,
    lemma_opened_list, m_per, m_place, merkle_demand, on_row, seg_col, seg_end, seg_len, seg_pub,
};
use super::fused_trace::seg_start;
use super::super_tile::lemma_leaf_polys;
use super::tiled::{lemma_one, lemma_switch};
use crate::expr::{
    gated, holds, lemma_holds_concat, lemma_holds_gated, lemma_holds_push, scaled, vanish, Env, Gate,
};
use crate::field::{cong, finv_z, lemma_cong_diff, red, two_adic_gen};
use crate::gadgets::{bit_z, link_polys};
use vstd::prelude::*;

verus! {

/// The carriers of one fold group.
proof fn lemma_group_back(
    acc: Seq<(Gate, int)>,
    env: Env,
    seed: int,
    hold: int,
    cg: int,
    r: int,
    h: int,
)
    requires
        seed == 0 || seed == 1,
        hold == 0 || hold == 1,
        holds(acc, r, h),
        seed == 1 ==> forall|k: int|
            0 <= k < 4 ==> cong(#[trigger] env.cur[cg + k], group_z(env.cur, k)),
        hold == 1 && r != h - 1 ==> forall|k: int|
            0 <= k < 4 ==> cong(#[trigger] env.nxt[cg + k], env.cur[cg + k]),
    ensures
        holds(group_list(acc, env, seed, hold, cg), r, h),
{
    let s1 = Seq::new(4, |k: int| seed * (env.cur[cg + k] - group_z(env.cur, k)));
    let s2 = Seq::new(4, |k: int| hold * (env.nxt[cg + k] - env.cur[cg + k]));
    let (g1, g2) = (gated(Gate::Always, s1), gated(Gate::Transition, s2));
    assert forall|k: int| 0 <= k < 4 implies red(#[trigger] s1[k]) == 0 by {
        lemma_one(seed, env.cur[cg + k] - group_z(env.cur, k));
        lemma_cong_diff(env.cur[cg + k], group_z(env.cur, k));
    }
    if r != h - 1 {
        assert forall|k: int| 0 <= k < 4 implies red(#[trigger] s2[k]) == 0 by {
            lemma_one(hold, env.nxt[cg + k] - env.cur[cg + k]);
            lemma_cong_diff(env.nxt[cg + k], env.cur[cg + k]);
        }
    }
    lemma_holds_gated(Gate::Always, s1, r, h);
    lemma_holds_gated(Gate::Transition, s2, r, h);
    lemma_holds_concat(acc, g1, r, h);
    lemma_holds_concat(acc + g1, g2, r, h);
}

/// The carriers of the first `n` fold groups.
proof fn lemma_groups_back(
    acc: Seq<(Gate, int)>,
    env: Env,
    p_round: int,
    hold: int,
    cg: int,
    n: nat,
    r: int,
    h: int,
)
    requires
        forall|i: int|
            0 <= i < n ==> #[trigger] env.per[p_round + i] == 0 || env.per[p_round + i] == 1,
        hold == 0 || hold == 1,
        holds(acc, r, h),
        forall|i: int, k: int|
            #![trigger env.cur[cg + 4 * i + k]]
            0 <= i < n && 0 <= k < 4 && env.per[p_round + i] == 1 ==> cong(
                env.cur[cg + 4 * i + k],
                group_z(env.cur, k),
            ),
        hold == 1 && r != h - 1 ==> forall|i: int, k: int|
            #![trigger env.nxt[cg + 4 * i + k]]
            0 <= i < n && 0 <= k < 4 ==> cong(env.nxt[cg + 4 * i + k], env.cur[cg + 4 * i + k]),
    ensures
        holds(groups_list(acc, env, p_round, hold, cg, n), r, h),
    decreases n,
{
    if n > 0 {
        let m = (n - 1) as nat;
        lemma_groups_back(acc, env, p_round, hold, cg, m, r, h);
        assert(env.per[p_round + m] == env.per[p_round + n - 1]);
        let at = cg + 4 * (n - 1);
        let seed = env.per[p_round + n - 1];
        if seed == 1 {
            assert forall|k: int| 0 <= k < 4 implies cong(
                #[trigger] env.cur[at + k],
                group_z(env.cur, k),
            ) by {
                assert(env.cur[cg + 4 * m + k] == env.cur[at + k]);
            }
        }
        if hold == 1 && r != h - 1 {
            assert forall|k: int| 0 <= k < 4 implies cong(
                #[trigger] env.nxt[at + k],
                env.cur[at + k],
            ) by {
                assert(env.nxt[cg + 4 * m + k] == env.nxt[at + k]);
            }
        }
        lemma_group_back(
            groups_list(acc, env, p_round, hold, cg, m),
            env,
            seed,
            hold,
            at,
            r,
            h,
        );
    }
}

/// The carriers at a row.
#[verifier::spinoff_prover]
proof fn lemma_carrier_back(air: MonolithAir, acc: Seq<(Gate, int)>, env: Env, r: int)
    requires
        air.fits(),
        m_per(air, env.per, r),
        holds(acc, r, air.height_z()),
        carrier_demand(air, env, r, m_place(air, r).1),
    ensures
        holds(air.carrier_polys(acc, env), r, air.height_z()),
{
    reveal(carrier_demand);
    let (q, j) = m_place(air, r);
    let h = air.height_z();
    let p = env.per;
    let m = air.m_base_z();
    let (c, n) = (env.cur, env.nxt);
    let ov = air.ov_z();
    let hold = p[m + 5] * (1 - p[m + 8]);
    assert(hold == (if 0 <= j && j != 735 { 1int } else { 0int })) by (nonlinear_arith)
        requires
            hold == p[m + 5] * (1 - p[m + 8]),
            p[m + 5] == (if j >= 0 { 1int } else { 0int }),
            p[m + 8] == (if j == 735 { 1int } else { 0int }),
    ;
    assert(j < 736);
    if hold == 1 && r != h - 1 {
        assert(cong(n[ov + 0], c[ov + 0]) && cong(n[ov + 1], c[ov + 1]) && cong(
            n[ov + 2],
            c[ov + 2],
        ));
    }
    lemma_opened_list(acc, env, p[m], hold, ov, 35, r, h);
    let a = opened_list(acc, env, p[m], hold, ov, 35);
    let cg = ov + 3;
    assert(air.cg_z(0, 0) == cg && air.z_z(0) + 4 == 35);
    assert forall|i: int|
        0 <= i < 6 implies #[trigger] p[air.p_round_z(0) + i] == 0 || p[air.p_round_z(0) + i] == 1 by {
        assert(p[air.p_round_z(0) + i] == on_row(j, i));
    }
    assert forall|i: int, k: int|
        #![trigger c[cg + 4 * i + k]]
        0 <= i < 6 && 0 <= k < 4 && p[air.p_round_z(0) + i] == 1 implies cong(
        c[cg + 4 * i + k],
        group_z(c, k),
    ) by {
        assert(p[air.p_round_z(0) + i] == on_row(j, i));
        assert(c[ov + 3 + 4 * j + k] == c[cg + 4 * i + k]);
    }
    if hold == 1 && r != h - 1 {
        assert forall|i: int, k: int|
            #![trigger n[cg + 4 * i + k]]
            0 <= i < 6 && 0 <= k < 4 implies cong(n[cg + 4 * i + k], c[cg + 4 * i + k]) by {
            let x = 3 + 4 * i + k;
            assert(ov + x == cg + 4 * i + k);
            assert(cong(n[ov + x], c[ov + x]));
        }
    }
    lemma_groups_back(a, env, air.p_round_z(0), hold, cg, 6, r, h);
}

/// The leaf blocks of the first `n` fold groups.
proof fn lemma_group_leaves_back(
    acc: Seq<(Gate, int)>,
    env: Env,
    c_leaf: int,
    cg: int,
    n: nat,
    r: int,
    h: int,
)
    requires
        holds(acc, r, h),
        forall|i: int|
            0 <= i < n ==> vanish(
                leaf_polys(env.cur, #[trigger] env.per[c_leaf + i], cg + 4 * i, 4),
            ),
    ensures
        holds(group_leaves_list(acc, env, c_leaf, cg, n), r, h),
    decreases n,
{
    if n > 0 {
        let m = (n - 1) as nat;
        lemma_group_leaves_back(acc, env, c_leaf, cg, m, r, h);
        let a = group_leaves_list(acc, env, c_leaf, cg, m);
        let l = leaf_polys(env.cur, env.per[c_leaf + n - 1], cg + 4 * (n - 1), 4);
        assert(vanish(leaf_polys(env.cur, env.per[c_leaf + m], cg + 4 * m, 4)));
        assert(env.per[c_leaf + m] == env.per[c_leaf + n - 1]);
        lemma_holds_gated(Gate::Always, l, r, h);
        lemma_holds_concat(a, gated(Gate::Always, l), r, h);
    }
}

/// The ends of the paths.
proof fn lemma_ends_back(air: MonolithAir, env: Env, j: int)
    requires
        env.per[air.m_base_z() + 3] == on_row(j, 191),
        env.per[air.m_base_z() + 10] == on_row(j, 351),
        forall|i: int|
            0 <= i < 6 ==> #[trigger] env.per[air.m_base_z() + 17 + i] == on_row(
                j,
                cm_term_z(i) * 32 + 31,
            ),
        forall|k: int, i: int|
            #![trigger env.pis[air.cap_z() + seg_pub(k) + i]]
            0 <= k < 8 && 0 <= i < 4 && j == seg_end(k) ==> cong(
                env.pis[air.cap_z() + seg_pub(k) + i],
                env.cur[i],
            ),
    ensures
        vanish(
            ends_polys(
                env,
                env.per[air.m_base_z() + 3],
                env.per[air.m_base_z() + 10],
                air.cap_z(),
            ),
        ),
        vanish(group_ends_polys(env, air.m_base_z() + 17, air.cap_z() + 9)),
{
    let m = air.m_base_z();
    let p = env.per;
    let cap = air.cap_z();
    let e = ends_polys(env, p[m + 3], p[m + 10], cap);
    let g = group_ends_polys(env, m + 17, cap + 9);
    assert forall|x: int| 0 <= x < 8 implies red(#[trigger] e[x]) == 0 by {
        let (i, k) = (x / 2, x % 2);
        let v = env.pis[cap + seg_pub(k) + i];
        assert(seg_end(0) == 191 && seg_end(1) == 351);
        lemma_cong_diff(env.cur[i], v);
        if k == 0 {
            lemma_one(p[m + 3], env.cur[i] - v);
        } else {
            lemma_one(p[m + 10], env.cur[i] - v);
        }
    }
    assert forall|x: int| 0 <= x < 24 implies red(#[trigger] g[x]) == 0 by {
        let (a, i) = (x / 4, x % 4);
        let k = a + 2;
        assert(p[m + 17 + a] == on_row(j, cm_term_z(a) * 32 + 31));
        assert(cap + seg_pub(k) + i == cap + 9 + x);
        let v = env.pis[cap + seg_pub(k) + i];
        lemma_cong_diff(env.cur[i], v);
        lemma_one(p[m + 17 + a], env.cur[i] - v);
        assert(seg_end(k) == cm_term_z(a) * 32 + 31);
    }
}

/// The product of complements where one value is one.
proof fn lemma_per_some(p: Seq<int>, from: int, n: nat, i: int)
    requires
        0 <= i < n,
        p[from + i] == 1,
    ensures
        per_none(p, from, n) == 0,
    decreases n,
{
    let x = per_none(p, from, (n - 1) as nat);
    let y = 1 - p[from + n - 1];
    if i < n - 1 {
        lemma_per_some(p, from, (n - 1) as nat, i);
    } else {
        assert(p[from + i] == p[from + n - 1]);
    }
    assert(x == 0 || y == 0);
    assert(x * y == 0) by (nonlinear_arith)
        requires
            x == 0 || y == 0,
    ;
}

/// Whether the link to the next block is on at row `j` of a tile.
proof fn lemma_link_on(air: MonolithAir, p: Seq<int>, r: int)
    requires
        air.fits(),
        m_per(air, p, r),
        r % 32 == m_place(air, r).1 % 32 || m_place(air, r).1 < 0,
        0 <= r,
    ensures
        ({
            let m = air.m_base_z();
            let j = m_place(air, r).1;
            let none = (1 - p[m + 3]) * (1 - p[m + 10]) * per_none(p, m + 17, 6);
            let link = p[m + 6] * p[11] * (1 - p[m + 8]) * none;
            &&& link == 0 || link == 1
            &&& link == 1 ==> j >= 32 && j % 32 == 31 && forall|k: int|
                0 <= k < 8 ==> j != #[trigger] seg_end(k)
        }),
{
    let m = air.m_base_z();
    let j = m_place(air, r).1;
    let (a, b, d, l, z) = (p[m + 3], p[m + 10], p[m + 6], p[11], p[m + 8]);
    let u = per_none(p, m + 17, 6);
    if exists|i: int| 0 <= i < 6 && #[trigger] p[m + 17 + i] == 1 {
        let i = choose|i: int| 0 <= i < 6 && #[trigger] p[m + 17 + i] == 1;
        lemma_per_some(p, m + 17, 6, i);
    } else {
        assert forall|i: int| 0 <= i < 6 implies #[trigger] p[m + 17 + i] == 0 by {
            assert(p[m + 17 + i] == on_row(j, cm_term_z(i) * 32 + 31));
        }
        super::fused_laws::lemma_per_none(p, m + 17, 6);
    }
    let none = (1 - a) * (1 - b) * u;
    let link = d * l * (1 - z) * none;
    assert((link == 0 || link == 1) && (link == 1 ==> a == 0 && b == 0 && u == 1 && d == 1 && l
        == 1)) by (nonlinear_arith)
        requires
            a == 0 || a == 1,
            b == 0 || b == 1,
            u == 0 || u == 1,
            d == 0 || d == 1,
            l == 0 || l == 1,
            z == 0 || z == 1,
            none == (1 - a) * (1 - b) * u,
            link == d * l * (1 - z) * none,
    ;
    if link == 1 {
        assert forall|k: int| 0 <= k < 8 implies j != #[trigger] seg_end(k) by {
            if k == 0 {
                assert(seg_end(0) == 191);
            } else if k == 1 {
                assert(seg_end(1) == 351);
            } else {
                let i = k - 2;
                assert(seg_end(k) == cm_term_z(i) * 32 + 31);
                if j == seg_end(k) {
                    assert(p[m + 17 + i] == on_row(j, cm_term_z(i) * 32 + 31));
                    lemma_per_some(p, m + 17, 6, i);
                }
            }
        }
    }
}

/// The Merkle blocks at a row.
#[verifier::spinoff_prover]
proof fn lemma_merkle_back(air: MonolithAir, acc: Seq<(Gate, int)>, env: Env, r: int)
    requires
        air.fits(),
        0 <= r,
        m_per(air, env.per, r),
        r % 32 == m_place(air, r).1 % 32 || m_place(air, r).1 < 0,
        holds(acc, r, air.height_z()),
        merkle_demand(air, env, r, m_place(air, r).1),
    ensures
        holds(air.merkle_polys(acc, env), r, air.height_z()),
{
    reveal(merkle_demand);
    let (q, j) = m_place(air, r);
    let h = air.height_z();
    let p = env.per;
    let m = air.m_base_z();
    let (c, n) = (env.cur, env.nxt);
    let (ov, cg) = (air.ov_z(), air.ov_z() + 3);
    assert(air.cg_z(0, 0) == cg && air.qc_z(0) == ov + 1);
    assert(seg_start(0) == 1 && seg_start(1) == 6);
    let l1 = leaf_polys(c, p[m + 2], ov, 1);
    let l2 = leaf_polys(c, p[m + 9], ov + 1, 2);
    if j == 32 {
        assert(leaf_holds(c, ov + seg_col(0), seg_len(0)));
    }
    if j == 192 {
        assert(leaf_holds(c, ov + seg_col(1), seg_len(1)));
    }
    lemma_leaf_polys(c, p[m + 2], ov, 1);
    lemma_leaf_polys(c, p[m + 9], ov + 1, 2);
    let (g1, g2) = (gated(Gate::Always, l1), gated(Gate::Always, l2));
    lemma_holds_gated(Gate::Always, l1, r, h);
    lemma_holds_gated(Gate::Always, l2, r, h);
    lemma_holds_concat(acc, g1, r, h);
    lemma_holds_concat(acc + g1, g2, r, h);
    let a2 = acc + g1 + g2;
    assert forall|i: int| 0 <= i < 6 implies vanish(
        leaf_polys(c, #[trigger] p[m + 11 + i], cg + 4 * i, 4),
    ) by {
        assert(p[m + 11 + i] == on_row(j, super::fused::cm_leaf_z(i) * 32));
        let k = i + 2;
        assert(seg_start(k) == super::fused::cm_leaf_z(i));
        if p[m + 11 + i] == 1 {
            assert(leaf_holds(c, ov + seg_col(k), seg_len(k)));
            assert(ov + seg_col(k) == cg + 4 * i);
        }
        lemma_leaf_polys(c, p[m + 11 + i], cg + 4 * i, 4);
    }
    lemma_group_leaves_back(a2, env, m + 11, cg, 6, r, h);
    let a3 = group_leaves_list(a2, env, m + 11, cg, 6);
    let x = (Gate::Always, p[m + 6] * bit_z(c[12]));
    lemma_one(p[m + 6], bit_z(c[12]));
    lemma_holds_push(a3, x, r, h);
    let a4 = a3.push(x);
    let none = (1 - p[m + 3]) * (1 - p[m + 10]) * per_none(p, m + 17, 6);
    let link = p[m + 6] * p[11] * (1 - p[m + 8]) * none;
    let ls = link_polys(c, n, 8, 12);
    let s5 = scaled(link, ls);
    lemma_link_on(air, p, r);
    lemma_switch(link, ls);
    let g5 = gated(Gate::Transition, s5);
    lemma_holds_gated(Gate::Transition, s5, r, h);
    lemma_holds_concat(a4, g5, r, h);
    let e6 = ends_polys(env, p[m + 3], p[m + 10], air.cap_z());
    let e7 = group_ends_polys(env, m + 17, air.cap_z() + 9);
    lemma_ends_back(air, env, j);
    let (g6, g7) = (gated(Gate::Always, e6), gated(Gate::Always, e7));
    lemma_holds_gated(Gate::Always, e6, r, h);
    lemma_holds_gated(Gate::Always, e7, r, h);
    lemma_holds_concat(a4 + g5, g6, r, h);
    lemma_holds_concat(a4 + g5 + g6, g7, r, h);
    assert(air.merkle_polys(acc, env) == a4 + g5 + g6 + g7);
}

/// A row of which all demands are met meets the constraints.
pub proof fn lemma_demands_enough(air: MonolithAir, e: Env, r: int)
    requires
        air.fits(),
        air.nb_z() <= 9,
        0 <= r < air.height_z(),
        m_per(air, e.per, r),
        head_demand(air, e, r, m_place(air, r).0, m_place(air, r).1),
        fold_demand(air, e, r, m_place(air, r).1),
        carrier_demand(air, e, r, m_place(air, r).1),
        merkle_demand(air, e, r, m_place(air, r).1),
    ensures
        holds(air.polys(e), r, air.height_z()),
{
    super::fused_laws::lemma_m_mod(air, r);
    let g = two_adic_gen(6);
    let a1 = air.head_polys(air.transcript_polys(e), e);
    let a2 = air.fold_and_check_polys(a1, e, g, finv_z(g));
    let a3 = air.carrier_polys(a2, e);
    lemma_head_demand(air, e, r);
    lemma_fold_demand(air, a1, e, r);
    lemma_carrier_back(air, a2, e, r);
    lemma_merkle_back(air, a3, e, r);
    assert(air.polys(e) == air.merkle_polys(a3, e));
}

} // verus!
