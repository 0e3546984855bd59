//! Honest traces of the fused system: what is laid out for openings that are accepted meets the
//! constraints.
use super::cells::{bare_chain_cells, head_cells, point_z, running, split_cells, zeros};
use super::fused::{epilogue_z, group_z, MonolithAir};
use super::fused_demands::lemma_demands_enough;
use super::fused_laws::{
    carrier_demand, fold_demand, head_demand, leaf_holds, lemma_m_env, m_per, m_place, m_transcript,
    merkle_demand, points_hold, seg_col, seg_end, seg_len, seg_pub,
};
use super::fused_trace::{seg_at, seg_depth, seg_start, TileOpenings};
use super::merkle_tile::{leaf_digest, leaf_state, lemma_mt_row_cells, lemma_mt_step, mt_row};
use super::parts::shift_z;
use super::phase4a_complete::{lemma_ft_input_len, lemma_index_laid};
use super::query::opening_of;
use super::query_tile::{head_at, lemma_terms_at, lemma_terms_len};
use super::region::{index_holds, lemma_region_laid, lemma_unbound, region_col};
use super::sponge::{bound, follows, ft_inputs, ft_trace, inputs_ok, squeezed};
use super::super_tile::{arith_row, lemma_arith_row, lemma_bare_step};
use super::tiled::{head_holds, lemma_tile_head};
use crate::bits::{bit_of, lemma_shr, shr_z};
use crate::cols::np2;
use crate::expr::{holds, pair, row_env, satisfied, vanish, Env};
use crate::field::{cong, econg, finv_z, lemma_red_bound, lemma_red_small, red, two_adic_gen};
use crate::fri_merkle::path_ok;
use crate::gadgets::{
    bind_polys, bit_z, fold_polys, index_bind_polys, link_polys, sponge_link, sponge_start,
};
use crate::merkle::{root_of, take4};
use crate::poseidon2::{lanes, lemma_perm_row_bound, lemma_round_idle, perm, round_polys, round_row};
use vstd::prelude::*;

verus! {

/// Openings `i` are what the transcript gives them, and what is committed to: the arithmetic of the
/// query has its index and its challenges from the public values, passes the out-of-domain check and
/// folds to the public evaluation, and every opened value and fold group leads to its public entry.
pub open spec fn m_query(
    air: MonolithAir,
    o: TileOpenings,
    alpha: (int, int),
    felt: int,
    pv: Seq<int>,
    i: int,
) -> bool {
    let q = o.query;
    let n = air.n_terms as int;
    let g = two_adic_gen(6);
    let head = Env {
        cur: arith_row(q, n, 0),
        nxt: Seq::empty(),
        per: Seq::empty(),
        pis: pv,
    };
    &&& o.fits(n)
    &&& q.terms.len() == n
    &&& econg(q.alpha@, alpha)
    &&& cong(felt, pv[2 * air.nb_z() + i])
    &&& q.index == red(felt) % 1024
    &&& q.rounds.len() >= 6
    &&& forall|j: int|
        #![trigger q.rounds@[j]]
        0 <= j < 6 ==> econg(q.rounds@[j].beta@, pair(pv, 6 + 2 * j)) && (q.rounds@[j].bit
            <==> bit_of(q.index as int, j) == 1)
    &&& econg(q.ro@, opening_of(q.terms@, point_z(q.index as int, 10), q.alpha@))
    &&& econg(pair(pv, air.cap_z() - 2), running(q.ro@, q.rounds@, 6))
    &&& points_hold(arith_row(q, n, 0), pv, 31, g)
    &&& econg(epilogue_z(head, 33, air.cap_z() + 8, finv_z(g)), (0, 0))
    &&& cong(o.v as int, q.terms@[0].px as int)
    &&& forall|j: int, k: int|
        #![trigger o.commits@[j].group@[k]]
        0 <= j < 6 && 0 <= k < 4 ==> cong(
            o.commits@[j].group@[k] as int,
            group_z(bare_chain_cells(q.ro@, q.rounds@, j), k),
        )
    &&& forall|k: int, x: int|
        #![trigger pv[air.cap_z() + seg_pub(k) + x]]
        0 <= k < 8 && 0 <= x < 4 ==> cong(
            pv[air.cap_z() + seg_pub(k) + x],
            root_of(leaf_digest(o.leaf_z(k)), o.path_at_z(k))[x],
        )
}

/// What an honest trace is laid out from: recorded inputs that follow the schedule and give the public
/// values, the combination challenge among them, and openings that are accepted.
pub open spec fn m_honest(
    air: MonolithAir,
    inputs: Seq<Seq<int>>,
    qs: Seq<TileOpenings>,
    alpha: (int, int),
    felts: Seq<int>,
    pv: Seq<int>,
) -> bool {
    &&& air.inputs_fit(inputs.len() as int, qs.len() as int, felts.len() as int)
    &&& inputs_ok(inputs)
    &&& follows(ft_inputs(inputs), air.counts@)
    &&& bound(m_transcript(air), ft_inputs(inputs), pv)
    &&& econg(alpha, pair(pv, 4))
    &&& forall|i: int|
        #![trigger qs[i]]
        0 <= i < qs.len() ==> m_query(air, qs[i], alpha, felts[i], pv, i)
}

/// The path that a block belongs to.
proof fn lemma_seg(b: int)
    requires
        1 <= b < 23,
    ensures
        0 <= seg_at(b) < 8,
        seg_start(seg_at(b)) <= b <= seg_start(seg_at(b)) + seg_depth(seg_at(b)),
{
    let k = seg_at(b);
    if b >= 20 {
        assert(k == 5 || k == 6 || k == 7);
    }
}

/// The blocks of path `k` belong to it.
proof fn lemma_seg_blocks(k: int, b: int)
    requires
        0 <= k < 8,
        seg_start(k) <= b <= seg_start(k) + seg_depth(k),
    ensures
        seg_at(b) == k,
        1 <= b < 23,
{
    assert(k == 0 || k == 1 || k == 2 || k == 3 || k == 4 || k == 5 || k == 6 || k == 7);
}

/// The leaf of a path, and where a tile holds it.
proof fn lemma_held(o: TileOpenings, n: int)
    requires
        o.fits(n),
    ensures
        o.held_z().len() == 27,
        forall|k: int, i: int|
            #![trigger o.leaf_z(k)[i]]
            0 <= k < 8 && 0 <= i < seg_len(k) ==> o.held_z()[seg_col(k) + i] == o.leaf_z(k)[i],
        forall|k: int| 0 <= k < 8 ==> (#[trigger] o.leaf_z(k)).len() == seg_len(k),
        forall|k: int| 0 <= k < 8 ==> path_ok(#[trigger] o.path_at_z(k)),
        forall|k: int| 0 <= k < 8 ==> (#[trigger] o.path_at_z(k)).len() == seg_depth(k),
{
    let h = o.held_z();
    let (l0, l1, l2, l3) = (o.leaf_z(0), o.leaf_z(1), o.leaf_z(2), o.leaf_z(3));
    let (l4, l5, l6, l7) = (o.leaf_z(4), o.leaf_z(5), o.leaf_z(6), o.leaf_z(7));
    assert(l0.len() == 1 && l1.len() == 2 && l2.len() == 4 && l3.len() == 4 && l4.len() == 4
        && l5.len() == 4 && l6.len() == 4 && l7.len() == 4);
    assert forall|k: int| 0 <= k < 8 implies (#[trigger] o.path_at_z(k)).len() == seg_depth(k) by {
        if k >= 2 {
            assert(o.path_at_z(k).len() == seg_depth(k));
        }
    }
    assert forall|k: int, i: int|
        #![trigger o.leaf_z(k)[i]]
        0 <= k < 8 && 0 <= i < seg_len(k) implies h[seg_col(k) + i] == o.leaf_z(k)[i] by {
        assert(k == 0 || k == 1 || k == 2 || k == 3 || k == 4 || k == 5 || k == 6 || k == 7);
    }
}

/// The cells that the arithmetic and the Merkle blocks of a row share.
proof fn lemma_left(o: TileOpenings, n: int, j: int)
    requires
        o.fits(n),
        o.query.terms.len() == n,
        0 <= j < 736,
    ensures
        o.left_row(n, j).len() == 31 + 9 * n,
        j >= 32 ==> forall|i: int|
            0 <= i < 13 ==> #[trigger] o.left_row(n, j)[i] == mt_row(
                o.leaf_z(seg_at(j / 32)),
                o.path_at_z(seg_at(j / 32)),
                seg_depth(seg_at(j / 32)) + 1,
                j - 32 * seg_start(seg_at(j / 32)),
            )[i],
{
    if j < 32 {
        lemma_arith_row(o.query, n, j);
    } else {
        lemma_seg(j / 32);
        lemma_held(o, n);
        let k = seg_at(j / 32);
        lemma_mt_row_cells(
            o.leaf_z(k),
            o.path_at_z(k),
            seg_depth(k) + 1,
            j - 32 * seg_start(k),
        );
    }
}

/// The cells of row `j` of a tile.
proof fn lemma_m_cells(
    air: MonolithAir,
    o: TileOpenings,
    felt: int,
    alpha: (int, int),
    j: int,
)
    requires
        air.nb_z() == 9,
        o.fits(air.n_terms as int),
        o.query.terms.len() == air.n_terms,
        0 <= j < 736,
    ensures
        ({
            let n = air.n_terms as int;
            let row = o.row(n, 6, felt, alpha, j);
            &&& forall|i: int| 0 <= i < 31 + 9 * n ==> #[trigger] row[i] == o.left_row(n, j)[i]
            &&& j == 0 ==> forall|i: int|
                0 <= i < 96 ==> #[trigger] row[air.sb_x_z() + i] == split_cells(felt)[i]
            &&& j <= 6 ==> row[air.idx_rem_z()] == shr_z(red(felt) % 1024, j as nat)
            &&& pair(row, air.carry_z()) == alpha
            &&& forall|i: int| 0 <= i < 27 ==> #[trigger] row[air.ov_z() + i] == o.held_z()[i]
        }),
{
    let n = air.n_terms as int;
    let row = o.row(n, 6, felt, alpha, j);
    lemma_left(o, n, j);
    lemma_held(o, n);
    let a = o.left_row(n, j);
    let b = if j == 0 {
        split_cells(felt)
    } else {
        zeros(96)
    };
    let x = if j <= 6 {
        shr_z(red(felt) % 1024, j as nat)
    } else {
        0
    };
    assert(a.len() == air.sb_x_z() && b.len() == 96);
    let left = (a + b).push(x).push(alpha.0).push(alpha.1);
    assert(left.len() == air.ov_z());
    assert(row == left + o.held_z());
    assert forall|i: int| 0 <= i < a.len() implies #[trigger] row[i] == a[i] by {
        assert(left[i] == (a + b)[i] && (a + b)[i] == a[i]);
    }
    assert forall|i: int| 0 <= i < 96 implies #[trigger] row[air.sb_x_z() + i] == b[i] by {
        assert(left[a.len() + i] == (a + b)[a.len() + i]);
    }
}

/// The head of a tile.
#[verifier::spinoff_prover]
proof fn lemma_m_head(
    air: MonolithAir,
    o: TileOpenings,
    alpha: (int, int),
    felt: int,
    e: Env,
    i: int,
)
    requires
        air.fits(),
        air.nb_z() == 9,
        m_query(air, o, alpha, felt, e.pis, i),
        e.cur == o.row(air.n_terms as int, 6, felt, alpha, 0),
    ensures
        ({
            let (c, pv) = (e.cur, e.pis);
            let g = two_adic_gen(6);
            &&& head_holds(c, air.n_terms as int)
            &&& econg(pair(c, 29), pair(c, air.carry_z()))
            &&& index_holds(c, pv[2 * air.nb_z() + i], air.sb_x_z())
            &&& econg(epilogue_z(e, 33, air.cap_z() + 8, finv_z(g)), (0, 0))
            &&& points_hold(c, pv, 31, g)
        }),
{
    let (c, pv) = (e.cur, e.pis);
    let nt = air.n_terms as int;
    let q = o.query;
    lemma_m_cells(air, o, felt, alpha, 0);
    lemma_arith_row(q, nt, 0);
    let a = arith_row(q, nt, 0);
    assert(o.left_row(nt, 0) == a);
    let h = head_cells(q, 10);
    let x = point_z(q.index as int, 10);
    lemma_terms_len(q.terms@, x, q.alpha@, q.terms@.len());
    assert forall|y: int| 0 <= y < h.len() implies #[trigger] c[9 + y] == h[y] by {
        assert(c[9 + y] == a[9 + y]);
    }
    assert(head_at(c, q, 9));
    assert(running(q.ro@, q.rounds@, 0) == q.ro@);
    assert(c[0] == a[0] && c[1] == a[1]);
    lemma_tile_head(c, q);
    assert(pair(c, 29) == q.alpha@) by {
        assert(c[9 + 20int] == h[20] && c[9 + 21int] == h[21]);
    }
    assert(c[air.sb_x_z() + 96] == shr_z(red(felt) % 1024, 0));
    lemma_index_laid(c, q, felt, pv[2 * air.nb_z() + i], air.sb_x_z());
    assert(nt >= 4);
    assert(pair(c, 33) == pair(a, 33) && pair(c, 42) == pair(a, 42) && pair(c, 51) == pair(a, 51)
        && pair(c, 60) == pair(a, 60));
    assert(pair(c, 31) == pair(a, 31) && pair(c, 40) == pair(a, 40) && pair(c, 49) == pair(a, 49)
        && pair(c, 58) == pair(a, 58));
}

/// The opened values at the head of a tile.
proof fn lemma_m_opened(
    air: MonolithAir,
    o: TileOpenings,
    alpha: (int, int),
    felt: int,
    pv: Seq<int>,
    i: int,
)
    requires
        air.fits(),
        air.nb_z() == 9,
        m_query(air, o, alpha, felt, pv, i),
    ensures
        ({
            let c = o.row(air.n_terms as int, 6, felt, alpha, 0);
            let ov = air.ov_z();
            cong(c[ov], c[35]) && cong(c[ov + 1], c[53]) && cong(c[ov + 2], c[62])
        }),
{
    let nt = air.n_terms as int;
    let c = o.row(nt, 6, felt, alpha, 0);
    let q = o.query;
    let ov = air.ov_z();
    lemma_m_cells(air, o, felt, alpha, 0);
    lemma_held(o, nt);
    lemma_arith_row(q, nt, 0);
    let a = arith_row(q, nt, 0);
    assert(o.left_row(nt, 0) == a);
    let h = head_cells(q, 10);
    let x = point_z(q.index as int, 10);
    lemma_terms_len(q.terms@, x, q.alpha@, q.terms@.len());
    assert(nt >= 4);
    assert forall|k: int| 0 <= k < 4 implies #[trigger] c[35 + 9 * k] == q.terms@[k].px by {
        lemma_terms_at(q.terms@, x, q.alpha@, q.terms@.len(), k, 4);
        let y = 26 + 9 * k;
        assert(a[9 + y] == h[y]);
        assert(c[35 + 9 * k] == a[35 + 9 * k]);
    }
    assert(c[35 + 9 * 0int] == q.terms@[0].px && c[35 + 9 * 2int] == q.terms@[2].px && c[35 + 9
        * 3int] == q.terms@[3].px);
    let held = o.held_z();
    assert(c[ov + 0] == held[0] && c[ov + 1] == held[1] && c[ov + 2] == held[2]);
    assert(held[seg_col(0) + 0] == o.leaf_z(0)[0]);
    assert(held[seg_col(1) + 0] == o.leaf_z(1)[0] && held[seg_col(1) + 1] == o.leaf_z(1)[1]);
}

/// A fold row of a tile.
#[verifier::spinoff_prover]
proof fn lemma_m_fold(
    air: MonolithAir,
    o: TileOpenings,
    alpha: (int, int),
    felt: int,
    e: Env,
    i: int,
    j: int,
)
    requires
        air.fits(),
        air.nb_z() == 9,
        m_query(air, o, alpha, felt, e.pis, i),
        0 <= j <= 6,
        e.cur == o.row(air.n_terms as int, 6, felt, alpha, j),
        e.nxt == o.row(air.n_terms as int, 6, felt, alpha, j + 1),
    ensures
        ({
            let (c, n, pv) = (e.cur, e.nxt, e.pis);
            let ov = air.ov_z();
            &&& j < 6 ==> econg(pair(c, 4), pair(pv, 6 + 2 * j))
            &&& j < 6 ==> red(shift_z(e, air.idx_rem_z())) == 0
            &&& j < 6 ==> vanish(fold_polys(c, n))
            &&& j == 6 ==> econg(pair(c, 0), pair(pv, air.cap_z() - 2))
            &&& j < 6 ==> forall|k: int|
                0 <= k < 4 ==> cong(#[trigger] c[ov + 3 + 4 * j + k], group_z(c, k))
        }),
{
    let (c, n, pv) = (e.cur, e.nxt, e.pis);
    let nt = air.n_terms as int;
    let q = o.query;
    let ov = air.ov_z();
    lemma_red_small(0);
    lemma_m_cells(air, o, felt, alpha, j);
    lemma_held(o, nt);
    lemma_arith_row(q, nt, j);
    let a = arith_row(q, nt, j);
    assert(o.left_row(nt, j) == a);
    let cc = bare_chain_cells(q.ro@, q.rounds@, j);
    assert forall|x: int| 0 <= x < 9 implies #[trigger] c[x] == cc[x] by {
        assert(c[x] == a[x]);
    }
    assert(c[0] == a[0] && c[1] == a[1]);
    assert(pair(c, 0) == running(q.ro@, q.rounds@, j as nat));
    if j < 6 {
        lemma_m_cells(air, o, felt, alpha, j + 1);
        lemma_arith_row(q, nt, j + 1);
        let b = arith_row(q, nt, j + 1);
        assert(o.left_row(nt, j + 1) == b);
        assert(n[0] == b[0] && n[1] == b[1]);
        assert(pair(n, 0) == running(q.ro@, q.rounds@, (j + 1) as nat));
        lemma_bare_step(q.ro@, q.rounds@, j, c, n);
        let rd = q.rounds@[j];
        assert(econg(rd.beta@, pair(pv, 6 + 2 * j)));
        assert(c[0] == cc[0] && c[1] == cc[1] && c[2] == cc[2] && c[3] == cc[3] && c[4] == cc[4]
            && c[5] == cc[5] && c[6] == cc[6]);
        assert(pair(c, 4) == rd.beta@);
        let v = red(felt) % 1024;
        lemma_red_bound(felt);
        lemma_shr(v, j as nat);
        assert(shr_z(v, (j + 1) as nat) == shr_z(v, j as nat) / 2);
        assert(bit_of(q.index as int, j) == shr_z(v, j as nat) % 2);
        assert forall|k: int| 0 <= k < 4 implies cong(
            #[trigger] c[ov + 3 + 4 * j + k],
            group_z(c, k),
        ) by {
            let x = 3 + 4 * j + k;
            assert(c[ov + x] == o.held_z()[x]);
            assert(o.leaf_z(j + 2)[k] == o.commits@[j].group@[k]);
            assert(seg_col(j + 2) + k == x);
            assert(o.held_z()[seg_col(j + 2) + k] == o.leaf_z(j + 2)[k]);
            assert(group_z(c, k) == group_z(cc, k));
        }
    }
}

/// What is demanded of a row of the Merkle blocks of a tile.
#[verifier::spinoff_prover]
proof fn lemma_m_blocks(
    air: MonolithAir,
    o: TileOpenings,
    alpha: (int, int),
    felt: int,
    e: Env,
    i: int,
    j: int,
)
    requires
        air.fits(),
        air.nb_z() == 9,
        m_query(air, o, alpha, felt, e.pis, i),
        32 <= j < 736,
        e.cur == o.row(air.n_terms as int, 6, felt, alpha, j),
        j < 735 ==> e.nxt == o.row(air.n_terms as int, 6, felt, alpha, j + 1),
        round_row(e.per, j % 32),
    ensures
        ({
            let (c, n) = (e.cur, e.nxt);
            &&& vanish(round_polys(lanes(c, 0), lanes(n, 0), e.per))
            &&& forall|k: int|
                #![trigger seg_start(k)]
                0 <= k < 8 && j == 32 * seg_start(k) ==> leaf_holds(
                    c,
                    air.ov_z() + seg_col(k),
                    seg_len(k),
                )
            &&& red(bit_z(c[12])) == 0
            &&& j % 32 == 31 && (forall|k: int| 0 <= k < 8 ==> j != #[trigger] seg_end(k)) ==> vanish(
                link_polys(c, n, 8, 12),
            )
            &&& forall|k: int, x: int|
                #![trigger e.pis[air.cap_z() + seg_pub(k) + x]]
                0 <= k < 8 && 0 <= x < 4 && j == seg_end(k) ==> cong(
                    e.pis[air.cap_z() + seg_pub(k) + x],
                    c[x],
                )
        }),
{
    let (c, n) = (e.cur, e.nxt);
    let nt = air.n_terms as int;
    let b = j / 32;
    let k = seg_at(b);
    lemma_seg(b);
    lemma_red_small(0);
    lemma_m_cells(air, o, felt, alpha, j);
    lemma_left(o, nt, j);
    lemma_held(o, nt);
    let (leaf, path, d) = (o.leaf_z(k), o.path_at_z(k), seg_depth(k));
    let at = j - 32 * seg_start(k);
    let a = mt_row(leaf, path, d + 1, at);
    lemma_mt_row_cells(leaf, path, d + 1, at);
    assert forall|x: int| 0 <= x < 13 implies #[trigger] c[x] == a[x] by {
        assert(c[x] == o.left_row(nt, j)[x]);
    }
    assert(lanes(c, 0) =~= lanes(a, 0));
    assert(at % 32 == j % 32);
    if at < 32 * (d + 1) - 1 {
        assert((j + 1) / 32 == b || (j + 1) / 32 == b + 1);
        lemma_seg_blocks(k, (j + 1) / 32);
        lemma_m_cells(air, o, felt, alpha, j + 1);
        lemma_left(o, nt, j + 1);
        assert forall|x: int| 0 <= x < 13 implies #[trigger] n[x] == mt_row(
            leaf,
            path,
            d + 1,
            at + 1,
        )[x] by {
            assert(n[x] == o.left_row(nt, j + 1)[x]);
        }
        lemma_mt_step(leaf, path, d + 1, at, c, n, e.per);
    } else {
        assert(j == seg_end(k));
        lemma_round_idle(lanes(c, 0), lanes(n, 0), e.per);
    }
    assert(bit_z(c[12]) == 0) by (nonlinear_arith)
        requires
            c[12] == 0 || c[12] == 1,
            bit_z(c[12]) == c[12] * (c[12] - 1) || bit_z(c[12]) == c[12] * (1 - c[12]),
    ;
    assert forall|s: int|
        #![trigger seg_start(s)]
        0 <= s < 8 && j == 32 * seg_start(s) implies leaf_holds(
        c,
        air.ov_z() + seg_col(s),
        seg_len(s),
    ) by {
        lemma_seg_blocks(s, b);
        let st = leaf_state(leaf);
        assert forall|x: int| 0 <= x < 8 implies #[trigger] c[x] == st[x] by {
            assert(lanes(c, 0)[x] == c[0 + x]);
        }
        let from = air.ov_z() + seg_col(s);
        assert forall|x: int| 0 <= x < seg_len(s) implies cong(#[trigger] c[x], c[from + x]) by {
            assert(c[air.ov_z() + (seg_col(s) + x)] == o.held_z()[seg_col(s) + x]);
            assert(o.held_z()[seg_col(s) + x] == o.leaf_z(s)[x]);
        }
    }
    assert forall|s: int, x: int|
        #![trigger e.pis[air.cap_z() + seg_pub(s) + x]]
        0 <= s < 8 && 0 <= x < 4 && j == seg_end(s) implies cong(
        e.pis[air.cap_z() + seg_pub(s) + x],
        c[x],
    ) by {
        lemma_seg_blocks(s, b);
        assert(take4(lanes(c, 0))[x] == c[0 + x]);
    }
}

/// What is demanded of a row beside what its tile and its carrier demand.
pub open spec fn outer_laid(air: MonolithAir, e: Env, r: int) -> bool {
    let (c, n, pv) = (e.cur, e.nxt, e.pis);
    let (tr, nb) = (air.tr_z(), air.nb_z());
    &&& r < tr ==> vanish(round_polys(lanes(c, 0), lanes(n, 0), e.per))
    &&& r == 0 ==> vanish(sponge_start(c, e.per[12]))
    &&& r < tr - 1 ==> vanish(sponge_link(c, n, e.per))
    &&& vanish(bind_polys(c, e.per, pv, nb))
    &&& vanish(index_bind_polys(c, e.per, pv, nb, air.index_binds@))
    &&& e.per[17] == 1 ==> squeezed(c, pair(c, air.carry_z()))
}

/// A row of the transcript region, or one behind it.
proof fn lemma_m_outer(
    air: MonolithAir,
    inputs: Seq<Seq<int>>,
    alpha: (int, int),
    e: Env,
    r: int,
)
    requires
        air.fits(),
        m_transcript(air).wf(),
        inputs_ok(inputs),
        np2(inputs.len() as int) == np2(air.counts.len() as int),
        follows(ft_inputs(inputs), air.counts@),
        bound(m_transcript(air), ft_inputs(inputs), e.pis),
        econg(alpha, pair(e.pis, 4)),
        0 <= r,
        forall|i: int|
            0 <= i < 15 + air.nb_z() + air.ni_z() && (r < air.tr_z() || i >= 15)
                ==> #[trigger] e.per[i] == region_col(m_transcript(air), i, r),
        round_row(e.per, r % 32),
        r < air.tr_z() ==> lanes(e.cur, 0) == ft_trace(inputs)[r],
        r + 1 < air.tr_z() ==> lanes(e.nxt, 0) == ft_trace(inputs)[r + 1],
        pair(e.cur, air.carry_z()) == alpha,
    ensures
        outer_laid(air, e, r),
{
    air.lemma_height();
    let (tr, nb, pv) = (air.tr_z(), air.nb_z(), e.pis);
    let ft = m_transcript(air);
    lemma_red_small(0);
    assert(e.per[17] == ft.col(17, r));
    if r < tr {
        let ins = ft_inputs(inputs);
        assert(inputs_ok(ins)) by {
            assert forall|b: int| 0 <= b < ins.len() implies (#[trigger] ins[b]).len() == 8 by {
                lemma_ft_input_len(inputs, b as nat);
            }
        }
        lemma_region_laid(ft, ins, e, r);
        if r == tr - 1 {
            assert(r % 32 == 31);
            lemma_round_idle(lanes(e.cur, 0), lanes(e.nxt, 0), e.per);
        }
        if e.per[17] == 1 {
            let at = ft.binds@[2] as int;
            assert(r == at * 32 + 31);
            let c = lanes(e.cur, 0);
            assert(c[3] == e.cur[3] && c[2] == e.cur[2]);
            assert(r / 32 == at && r % 32 == 31);
            assert(c == perm(ins[at]));
        }
    } else {
        assert forall|i: int| 15 <= i < 15 + nb + air.index_binds@.len() implies #[trigger] e.per[i]
            == 0 by {
            assert(e.per[i] == ft.col(i, r));
            if i < 15 + nb {
                assert(ft.binds@[i - 15] < ft.padded_z());
            } else {
                assert(ft.index_binds@[i - 15 - nb].0 < ft.padded_z());
            }
        }
        lemma_unbound(e.cur, e.per, pv, nb, air.index_binds@);
    }
}

/// The lanes of the transcript region, and the carrier of the combination challenge.
proof fn lemma_m_shared(
    air: MonolithAir,
    inputs: Seq<Seq<int>>,
    qs: Seq<TileOpenings>,
    alpha: (int, int),
    felts: Seq<int>,
    r: int,
)
    requires
        air.fits(),
        air.nb_z() == 9,
        inputs_ok(inputs),
        np2(inputs.len() as int) == np2(air.counts.len() as int),
        qs.len() == air.n_queries,
        0 <= r < air.height_z(),
        forall|i: int|
            #![trigger qs[i]]
            0 <= i < qs.len() ==> qs[i].fits(air.n_terms as int) && qs[i].query.terms.len()
                == air.n_terms,
    ensures
        pair(air.trace_row(inputs, qs, alpha, felts, r), air.carry_z()) == alpha,
        r < air.tr_z() ==> lanes(air.trace_row(inputs, qs, alpha, felts, r), 0) == ft_trace(
            inputs,
        )[r],
{
    let row = air.trace_row(inputs, qs, alpha, felts, r);
    let d = r - air.tr_z();
    if d < 0 {
        lemma_ft_input_len(inputs, (r / 32) as nat);
        lemma_perm_row_bound(ft_inputs(inputs)[r / 32], (r % 32) as nat);
        let a = ft_trace(inputs)[r];
        assert(a.len() == 8);
        let left = (a + zeros(air.carry_z() - 8)).push(alpha.0).push(alpha.1);
        assert(left.len() == air.carry_z() + 2);
        assert(row[air.carry_z()] == left[air.carry_z()] && row[air.carry_z() + 1]
            == left[air.carry_z() + 1]);
        assert(lanes(row, 0) =~= a);
    } else if d / 736 < air.n_queries {
        let o = qs[d / 736];
        assert(o.fits(air.n_terms as int));
        lemma_m_cells(air, o, felts[d / 736], alpha, d % 736);
    } else {
        let left = zeros(air.carry_z()).push(alpha.0).push(alpha.1);
        assert(row[air.carry_z()] == left[air.carry_z()] && row[air.carry_z() + 1]
            == left[air.carry_z() + 1]);
    }
}

/// The row behind row `j` of tile `q` is the next row of the tile, and holds what the tile holds.
proof fn lemma_m_next(
    air: MonolithAir,
    inputs: Seq<Seq<int>>,
    qs: Seq<TileOpenings>,
    alpha: (int, int),
    felts: Seq<int>,
    q: int,
    j: int,
)
    requires
        air.fits(),
        air.nb_z() == 9,
        0 <= q < air.n_queries,
        0 <= j < 735,
        qs[q].fits(air.n_terms as int),
        qs[q].query.terms.len() == air.n_terms,
    ensures
        ({
            let r = air.tr_z() + 736 * q + j;
            let c = air.trace_row(inputs, qs, alpha, felts, r);
            let n = air.trace_row(inputs, qs, alpha, felts, r + 1);
            &&& r + 1 < air.height_z()
            &&& n == qs[q].row(air.n_terms as int, 6, felts[q], alpha, j + 1)
            &&& forall|i: int|
                0 <= i < 27 ==> cong(#[trigger] n[air.ov_z() + i], c[air.ov_z() + i])
        }),
{
    air.lemma_height();
    let (h, tr) = (air.height_z(), air.tr_z());
    let r = tr + 736 * q + j;
    assert(r + 1 < h) by (nonlinear_arith)
        requires
            r == tr + 736 * q + j,
            j < 735,
            q + 1 <= air.n_queries,
            tr + air.n_queries * 736 <= h,
    ;
    assert((r - tr) / 736 == q && (r - tr) % 736 == j);
    assert((r + 1 - tr) / 736 == q && (r + 1 - tr) % 736 == j + 1);
    lemma_m_cells(air, qs[q], felts[q], alpha, j);
    lemma_m_cells(air, qs[q], felts[q], alpha, j + 1);
    let c = air.trace_row(inputs, qs, alpha, felts, r);
    assert forall|i: int| 0 <= i < 27 implies #[trigger] c[air.ov_z() + i] == qs[q].held_z()[i] by {}
}

/// No path starts or ends in the arithmetic rows of a tile, or outside the tiles.
proof fn lemma_no_block(j: int, k: int)
    requires
        j < 32,
        0 <= k < 8,
    ensures
        j != 32 * seg_start(k),
        j != seg_end(k),
{
    assert(k == 0 || k == 1 || k == 2 || k == 3 || k == 4 || k == 5 || k == 6 || k == 7);
}

/// A row of an honest trace outside the tiles meets all that is demanded of it.
#[verifier::spinoff_prover]
proof fn lemma_m_laid_outside(air: MonolithAir, e: Env, r: int)
    requires
        air.fits(),
        air.nb_z() == 9,
        m_place(air, r).1 < 0,
        outer_laid(air, e, r),
        r != air.height_z() - 1 ==> pair(e.nxt, air.carry_z()) == pair(e.cur, air.carry_z()),
    ensures
        ({
            let (q, j) = m_place(air, r);
            &&& head_demand(air, e, r, q, j)
            &&& fold_demand(air, e, r, j)
            &&& carrier_demand(air, e, r, j)
            &&& merkle_demand(air, e, r, j)
        }),
{
    let (q, j) = m_place(air, r);
    reveal(head_demand);
    reveal(fold_demand);
    reveal(carrier_demand);
    assert(merkle_demand(air, e, r, j)) by {
        reveal(merkle_demand);
        assert forall|k: int, i: int|
            #![trigger e.pis[air.cap_z() + seg_pub(k) + i]]
            0 <= k < 8 && 0 <= i < 4 && j == seg_end(k) implies cong(
            e.pis[air.cap_z() + seg_pub(k) + i],
            e.cur[i],
        ) by {
            lemma_no_block(j, k);
        }
        assert forall|k: int|
            #![trigger seg_start(k)]
            0 <= k < 8 && j == 32 * seg_start(k) implies leaf_holds(
            e.cur,
            air.ov_z() + seg_col(k),
            seg_len(k),
        ) by {
            lemma_no_block(j, k);
        }
    }
}

/// A row of a tile of an honest trace meets all that is demanded of it.
#[verifier::spinoff_prover]
proof fn lemma_m_laid_tile(
    air: MonolithAir,
    o: TileOpenings,
    alpha: (int, int),
    felt: int,
    e: Env,
    r: int,
)
    requires
        air.fits(),
        air.nb_z() == 9,
        m_place(air, r).1 >= 0,
        m_query(air, o, alpha, felt, e.pis, m_place(air, r).0),
        m_per(air, e.per, r),
        r % 32 == m_place(air, r).1 % 32,
        outer_laid(air, e, r),
        r != air.height_z() - 1 ==> pair(e.nxt, air.carry_z()) == pair(e.cur, air.carry_z()),
        e.cur == o.row(air.n_terms as int, 6, felt, alpha, m_place(air, r).1),
        m_place(air, r).1 < 735 ==> e.nxt == o.row(
            air.n_terms as int,
            6,
            felt,
            alpha,
            m_place(air, r).1 + 1,
        ) && forall|i: int|
            0 <= i < 27 ==> cong(#[trigger] e.nxt[air.ov_z() + i], e.cur[air.ov_z() + i]),
    ensures
        ({
            let (q, j) = m_place(air, r);
            &&& head_demand(air, e, r, q, j)
            &&& fold_demand(air, e, r, j)
            &&& carrier_demand(air, e, r, j)
            &&& merkle_demand(air, e, r, j)
        }),
{
    let (q, j) = m_place(air, r);
    if j == 0 {
        lemma_m_head(air, o, alpha, felt, e, q);
        lemma_m_opened(air, o, alpha, felt, e.pis, q);
    }
    if j <= 6 {
        lemma_m_fold(air, o, alpha, felt, e, q, j);
    }
    if j >= 32 {
        lemma_m_blocks(air, o, alpha, felt, e, q, j);
    }
    assert(head_demand(air, e, r, q, j)) by {
        reveal(head_demand);
    }
    assert(fold_demand(air, e, r, j)) by {
        reveal(fold_demand);
    }
    assert(carrier_demand(air, e, r, j)) by {
        reveal(carrier_demand);
    }
    assert(merkle_demand(air, e, r, j)) by {
        reveal(merkle_demand);
        if j < 32 {
            assert forall|k: int, i: int|
                #![trigger e.pis[air.cap_z() + seg_pub(k) + i]]
                0 <= k < 8 && 0 <= i < 4 && j == seg_end(k) implies cong(
                e.pis[air.cap_z() + seg_pub(k) + i],
                e.cur[i],
            ) by {
                lemma_no_block(j, k);
            }
            assert forall|k: int|
                #![trigger seg_start(k)]
                0 <= k < 8 && j == 32 * seg_start(k) implies leaf_holds(
                e.cur,
                air.ov_z() + seg_col(k),
                seg_len(k),
            ) by {
                lemma_no_block(j, k);
            }
        }
    }
}

/// A row of an honest trace meets all that is demanded of it.
#[verifier::spinoff_prover]
proof fn lemma_m_laid(
    air: MonolithAir,
    inputs: Seq<Seq<int>>,
    qs: Seq<TileOpenings>,
    alpha: (int, int),
    felts: Seq<int>,
    pv: Seq<int>,
    r: int,
)
    requires
        air.fits(),
        air.nb_z() == 9,
        m_transcript(air).wf(),
        m_honest(air, inputs, qs, alpha, felts, pv),
        0 <= r < air.height_z(),
    ensures
        ({
            let e = row_env(air.trace_z(inputs, qs, alpha, felts), air.cols_z(), pv, r);
            let (q, j) = m_place(air, r);
            &&& m_per(air, e.per, r)
            &&& head_demand(air, e, r, q, j)
            &&& fold_demand(air, e, r, j)
            &&& carrier_demand(air, e, r, j)
            &&& merkle_demand(air, e, r, j)
        }),
{
    air.lemma_height();
    let t = air.trace_z(inputs, qs, alpha, felts);
    let e = row_env(t, air.cols_z(), pv, r);
    let (q, j) = m_place(air, r);
    let (h, tr) = (air.height_z(), air.tr_z());
    let n = air.n_terms as int;
    lemma_m_env(air, t, pv, r);
    super::fused_laws::lemma_m_mod(air, r);
    assert(e.cur == air.trace_row(inputs, qs, alpha, felts, r));
    assert forall|i: int|
        #![trigger qs[i]]
        0 <= i < qs.len() implies qs[i].fits(n) && qs[i].query.terms.len() == n by {
        assert(m_query(air, qs[i], alpha, felts[i], pv, i));
    }
    lemma_m_shared(air, inputs, qs, alpha, felts, r);
    if r + 1 < h {
        assert(e.nxt == air.trace_row(inputs, qs, alpha, felts, r + 1));
        lemma_m_shared(air, inputs, qs, alpha, felts, r + 1);
    }
    lemma_m_outer(air, inputs, alpha, e, r);
    if j < 0 {
        lemma_m_laid_outside(air, e, r);
    } else {
        assert(r == tr + 736 * q + j);
        assert(m_query(air, qs[q], alpha, felts[q], pv, q));
        assert(qs[q].fits(n));
        if j < 735 {
            lemma_m_next(air, inputs, qs, alpha, felts, q, j);
        }
        lemma_m_laid_tile(air, qs[q], alpha, felts[q], e, r);
    }
}

/// The trace that is laid out for an honest transcript, and openings that are accepted, meets the
/// constraints of the fused system.
pub proof fn law_monolith_complete(
    air: MonolithAir,
    inputs: Seq<Seq<int>>,
    qs: Seq<TileOpenings>,
    alpha: (int, int),
    felts: Seq<int>,
    pv: Seq<int>,
)
    requires
        air.fits(),
        air.nb_z() == 9,
        m_transcript(air).wf(),
        m_honest(air, inputs, qs, alpha, felts, pv),
    ensures
        satisfied(
            |env: Env| air.polys(env),
            air.trace_z(inputs, qs, alpha, felts),
            air.cols_z(),
            pv,
        ),
{
    let t = air.trace_z(inputs, qs, alpha, felts);
    let polys = |env: Env| air.polys(env);
    air.lemma_height();
    assert forall|r: int|
        #![trigger row_env(t, air.cols_z(), pv, r)]
        0 <= r < t.len() implies holds(
        polys(row_env(t, air.cols_z(), pv, r)),
        r,
        t.len() as int,
    ) by {
        lemma_m_laid(air, inputs, qs, alpha, felts, pv, r);
        lemma_demands_enough(air, row_env(t, air.cols_z(), pv, r), r);
    }
}

} // verus!
