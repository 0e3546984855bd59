//! Honest traces of the transcript and the arithmetic of all queries: what is laid out for queries that
//! are accepted meets the constraints.
use super::cells::{chain_cells, head_cells, query_ok, running, split_cells, zeros, Query};
use super::index::{lemma_canon_complete, lemma_recon_bits};
use super::phase4a::{lemma_p4_env, lemma_p4_holds, p4_demand, p4_place, Phase4AAir};
use super::query_tile::{head_at, lemma_chain_complete};
use super::region::{index_holds, lemma_region_laid, lemma_unbound, region_col};
use super::sponge::{bound, follows, ft_input, ft_inputs, ft_trace, inputs_ok, squeezed};
use super::tiled::{accepted, lemma_tile_head, lemma_tile_row, tile_row};
use crate::bits::{bit_of, lemma_low_mod, lemma_shr, shr_z};
use crate::cols::np2;
use crate::expr::{holds, pair, row_env, satisfied, vanish, Env};
use crate::field::{cong, econg, lemma_red_bound, lemma_red_small, red};
use crate::gadgets::{bind_polys, fold_polys, index_bind_polys, sponge_link, sponge_start};
use crate::poseidon2::{lanes, lemma_perm_row_bound, perm, round_polys};
use vstd::arithmetic::power2::{lemma2_to64, lemma_pow2_pos, lemma_pow2_unfold, pow2};
use vstd::prelude::*;

verus! {

/// Query `i` is what the transcript gives it: its index and its challenges are those of the public
/// values, its fold slots are the low bits of its index, and it folds to the public evaluation.
pub open spec fn p4_query(
    air: Phase4AAir,
    q: Query,
    alpha: (int, int),
    felt: int,
    pv: Seq<int>,
    i: int,
) -> bool {
    &&& query_ok(q, 10)
    &&& q.terms.len() == air.n_terms
    &&& econg(q.alpha@, alpha)
    &&& cong(felt, pv[2 * air.nb_z() + i])
    &&& q.index == red(felt) % 1024
    &&& q.rounds.len() >= air.rounds_z()
    &&& forall|j: int|
        #![trigger q.rounds@[j]]
        0 <= j < air.rounds_z() ==> econg(q.rounds@[j].beta@, pair(pv, 6 + 2 * j)) && (
        q.rounds@[j].bit <==> bit_of(q.index as int, j) == 1)
    &&& accepted(q, pair(pv, 2 * air.nb_z() + air.ni_z()))
}

/// What an honest trace is laid out from: recorded inputs that follow the schedule and give the public
/// values, the combination challenge among them, and queries that are what the transcript gives them.
pub open spec fn p4_honest(
    air: Phase4AAir,
    inputs: Seq<Seq<int>>,
    qs: Seq<Query>,
    alpha: (int, int),
    felts: Seq<int>,
    pv: Seq<int>,
) -> bool {
    &&& air.inputs_fit(inputs.len() as int, qs, felts.len() as int)
    &&& inputs_ok(inputs)
    &&& follows(ft_inputs(inputs), air.counts@)
    &&& bound(air.transcript(), ft_inputs(inputs), pv)
    &&& econg(alpha, pair(pv, 4))
    &&& forall|i: int|
        #![trigger qs[i]]
        0 <= i < qs.len() ==> p4_query(air, qs[i], alpha, felts[i], pv, i)
}

pub proof fn lemma_ft_input_len(inputs: Seq<Seq<int>>, b: nat)
    requires
        inputs_ok(inputs),
    ensures
        ft_input(inputs, b).len() == 8,
    decreases b,
{
    if b >= inputs.len() && b > 0 {
        lemma_ft_input_len(inputs, (b - 1) as nat);
        lemma_perm_row_bound(ft_input(inputs, (b - 1) as nat), 31);
    }
}

/// The lanes of the rows of the transcript region.
proof fn lemma_p4_lanes(
    air: Phase4AAir,
    inputs: Seq<Seq<int>>,
    qs: Seq<Query>,
    alpha: (int, int),
    felts: Seq<int>,
    r: int,
)
    requires
        air.fits(),
        inputs_ok(inputs),
        np2(inputs.len() as int) == np2(air.counts.len() as int),
        0 <= r < air.tr_z(),
    ensures
        lanes(air.trace_row(inputs, qs, alpha, felts, r), 0) == ft_trace(inputs)[r],
        pair(air.trace_row(inputs, qs, alpha, felts, r), air.carry_z()) == alpha,
{
    let ins = ft_inputs(inputs);
    let row = air.trace_row(inputs, qs, alpha, felts, r);
    lemma_ft_input_len(inputs, (r / 32) as nat);
    lemma_perm_row_bound(ins[r / 32], (r % 32) as nat);
    assert(ft_trace(inputs)[r].len() == 8);
    assert(row.len() == air.carry_z() + 2);
    assert(lanes(row, 0) =~= ft_trace(inputs)[r]);
}

/// The cells of row `j` of tile `q`.
proof fn lemma_p4_tile(
    air: Phase4AAir,
    inputs: Seq<Seq<int>>,
    qs: Seq<Query>,
    alpha: (int, int),
    felts: Seq<int>,
    q: int,
    j: int,
)
    requires
        air.fits(),
        0 <= q < air.n_queries,
        0 <= j < 8,
        qs[q].terms.len() <= air.n_terms,
    ensures
        ({
            let row = air.trace_row(inputs, qs, alpha, felts, air.tr_z() + 8 * q + j);
            let n = air.n_terms as int;
            &&& forall|i: int| 0 <= i < 31 + 9 * n ==> #[trigger] row[i] == tile_row(qs[q], n, j)[i]
            &&& j == 0 ==> forall|i: int|
                0 <= i < 96 ==> #[trigger] row[air.sb_x_z() + i] == split_cells(felts[q])[i]
            &&& row[air.idx_rem_z()] == shr_z(
                red(felts[q]) % 1024,
                (if j < air.rounds_z() {
                    j
                } else {
                    air.rounds_z()
                }) as nat,
            )
            &&& pair(row, air.carry_z()) == alpha
        }),
{
    let r = air.tr_z() + 8 * q + j;
    let row = air.trace_row(inputs, qs, alpha, felts, r);
    let n = air.n_terms as int;
    assert((r - air.tr_z()) / 8 == q && (r - air.tr_z()) % 8 == j);
    lemma_tile_row(qs[q], n, j);
    let a = tile_row(qs[q], n, j);
    let b = if j == 0 {
        split_cells(felts[q])
    } else {
        zeros(96)
    };
    assert(a.len() == air.sb_x_z() && b.len() == 96);
    assert forall|i: int| 0 <= i < a.len() implies #[trigger] row[i] == a[i] by {
        assert((a + b)[i] == a[i]);
    }
    assert forall|i: int| 0 <= i < 96 implies #[trigger] row[air.sb_x_z() + i] == b[i] by {
        assert((a + b)[a.len() + i] == b[i]);
    }
}

/// The index cells of the head of a tile.
pub proof fn lemma_index_laid(row: Seq<int>, q: Query, felt: int, selected: int, sb_x: int)
    requires
        head_at(row, q, 9),
        forall|i: int| 0 <= i < 96 ==> #[trigger] row[sb_x + i] == split_cells(felt)[i],
        row[sb_x + 96] == red(felt) % 1024,
        cong(felt, selected),
        q.index == red(felt) % 1024,
    ensures
        index_holds(row, selected, sb_x),
{
    let v = red(felt);
    let s = split_cells(felt);
    lemma_red_bound(felt);
    lemma_red_small(0);
    lemma2_to64();
    assert(row[sb_x + 0] == s[0]);
    assert forall|i: int| 0 <= i < 64 implies #[trigger] row[sb_x + 1 + i] == bit_of(v, i) by {
        assert(row[sb_x + (1 + i)] == s[1 + i]);
    }
    assert forall|k: int| 0 <= k < 31 implies #[trigger] row[sb_x + 65 + k]
        == super::cells::high_run(v, (k + 1) as nat) by {
        assert(row[sb_x + (65 + k)] == s[65 + k]);
    }
    lemma_canon_complete(row, sb_x, sb_x + 1, sb_x + 65, felt);
    lemma_recon_bits(row, sb_x + 1, v, 10);
    lemma_low_mod(v, 10);
    let low = super::parts::low_bit_polys(row, sb_x + 1);
    let h = head_cells(q, 10);
    assert forall|i: int| 0 <= i < low.len() implies red(#[trigger] low[i]) == 0 by {
        assert(row[9 + i] == h[i]);
        assert(row[sb_x + 1 + i] == bit_of(v, i));
        lemma_low_bit(v, i);
    }
}

/// Dropping bits of a rest is the rest of dropping bits.
proof fn lemma_shr_rest(v: int, n: nat, i: nat)
    requires
        v >= 0,
        i <= n,
    ensures
        shr_z(v % (pow2(n) as int), i) == shr_z(v, i) % (pow2((n - i) as nat) as int),
    decreases i,
{
    lemma_pow2_pos((n - i) as nat);
    if i > 0 {
        let k = (i - 1) as nat;
        lemma_shr_rest(v, n, k);
        lemma_shr(v, k);
        lemma_pow2_unfold((n - k) as nat);
        let (x, m) = (shr_z(v, k), pow2((n - i) as nat) as int);
        assert(pow2((n - k) as nat) == 2 * m);
        let (c, d) = (x / (2 * m), x % (2 * m));
        assert(x == (2 * m) * c + d && 0 <= d < 2 * m) by {
            vstd::arithmetic::div_mod::lemma_fundamental_div_mod(x, 2 * m);
            vstd::arithmetic::div_mod::lemma_mod_bound(x, 2 * m);
        }
        assert((2 * m) * c == 2 * (m * c)) by (nonlinear_arith);
        assert(x / 2 == m * c + d / 2);
        vstd::arithmetic::div_mod::lemma_fundamental_div_mod_converse(x / 2, m, c, d / 2);
    }
}

/// The low bits of a number are those of its rest.
proof fn lemma_low_bit(v: int, i: int)
    requires
        v >= 0,
        0 <= i < 10,
    ensures
        bit_of(v % 1024, i) == bit_of(v, i),
{
    lemma2_to64();
    lemma_shr_rest(v, 10, i as nat);
    lemma_shr(v, i as nat);
    let m = (10 - i) as nat;
    lemma_pow2_unfold(m);
    lemma_pow2_pos((m - 1) as nat);
    let (x, k) = (shr_z(v, i as nat), pow2((m - 1) as nat) as int);
    vstd::arithmetic::div_mod::lemma_mod_mod(x, 2, k);
}

/// What is demanded of a row of an honest trace beside what its tile demands.
proof fn lemma_p4_outer_laid(
    air: Phase4AAir,
    inputs: Seq<Seq<int>>,
    qs: Seq<Query>,
    alpha: (int, int),
    felts: Seq<int>,
    pv: Seq<int>,
    e: Env,
    r: int,
)
    requires
        air.fits(),
        air.transcript().wf(),
        p4_honest(air, inputs, qs, alpha, felts, pv),
        0 <= r < air.height_z(),
        forall|i: int|
            0 <= i < 15 + air.nb_z() + air.ni_z() && (r < air.tr_z() || i >= 15)
                ==> #[trigger] e.per[i] == region_col(air.transcript(), i, r),
        e.pis == pv,
        e.cur == air.trace_row(inputs, qs, alpha, felts, r),
        r + 1 < air.tr_z() ==> e.nxt == air.trace_row(inputs, qs, alpha, felts, r + 1),
        pair(e.cur, air.carry_z()) == alpha,
    ensures
        ({
            let (c, n) = (e.cur, e.nxt);
            let (tr, nb) = (air.tr_z(), air.nb_z());
            &&& r < tr - 1 ==> vanish(round_polys(lanes(c, 0), lanes(n, 0), e.per))
            &&& r == 0 ==> vanish(sponge_start(c, e.per[12]))
            &&& r < tr - 1 ==> vanish(sponge_link(c, n, e.per))
            &&& vanish(bind_polys(c, e.per, pv, nb))
            &&& vanish(index_bind_polys(c, e.per, pv, nb, air.index_binds@))
            &&& e.per[17] == 1 ==> squeezed(c, pair(c, air.carry_z()))
        }),
{
    air.lemma_height();
    let (tr, nb) = (air.tr_z(), air.nb_z());
    let ft = air.transcript();
    assert(e.per[17] == ft.col(17, r));
    if r < tr {
        lemma_p4_lanes(air, inputs, qs, alpha, felts, r);
        if r + 1 < tr {
            lemma_p4_lanes(air, inputs, qs, alpha, felts, r + 1);
        }
        let ins = ft_inputs(inputs);
        assert(inputs_ok(ins)) by {
            assert forall|b: int| 0 <= b < ins.len() implies (#[trigger] ins[b]).len() == 8 by {
                lemma_ft_input_len(inputs, b as nat);
            }
        }
        lemma_region_laid(ft, ins, e, r);
        if e.per[17] == 1 {
            let at = ft.binds@[2] as int;
            assert(r == at * 32 + 31);
            let c = lanes(e.cur, 0);
            assert(c[3] == e.cur[3] && c[2] == e.cur[2]);
            assert(r / 32 == at && r % 32 == 31);
            assert(c == perm(ins[at]));
        }
    } else {
        assert forall|i: int| 15 <= i < 15 + nb + air.index_binds@.len() implies #[trigger] e.per[i]
            == 0 by {
            assert(e.per[i] == ft.col(i, r));
            if i < 15 + nb {
                assert(ft.binds@[i - 15] < ft.padded_z());
            } else {
                assert(ft.index_binds@[i - 15 - nb].0 < ft.padded_z());
            }
        }
        lemma_unbound(e.cur, e.per, pv, nb, air.index_binds@);
    }
}

/// What is demanded of a row of an honest trace.
proof fn lemma_p4_row_laid(
    air: Phase4AAir,
    inputs: Seq<Seq<int>>,
    qs: Seq<Query>,
    alpha: (int, int),
    felts: Seq<int>,
    pv: Seq<int>,
    r: int,
)
    requires
        air.fits(),
        air.rounds_z() <= 7,
        air.transcript().wf(),
        p4_honest(air, inputs, qs, alpha, felts, pv),
        0 <= r < air.height_z(),
    ensures
        ({
            let t = air.trace_z(inputs, qs, alpha, felts);
            let (q, j) = p4_place(air, r);
            p4_demand(air, row_env(t, air.cols_z(), pv, r), r, q, j)
        }),
{
    air.lemma_height();
    let t = air.trace_z(inputs, qs, alpha, felts);
    let e = row_env(t, air.cols_z(), pv, r);
    let (q, j) = p4_place(air, r);
    let h = air.height_z();
    assert(e.cur == air.trace_row(inputs, qs, alpha, felts, r));
    assert forall|i: int|
        #![trigger qs[i]]
        0 <= i < qs.len() implies qs[i].terms.len() <= air.n_terms by {
        assert(p4_query(air, qs[i], alpha, felts[i], pv, i));
    }
    lemma_p4_alpha_cell(air, inputs, qs, alpha, felts, r);
    if r + 1 < h {
        assert(e.nxt == air.trace_row(inputs, qs, alpha, felts, r + 1));
        lemma_p4_alpha_cell(air, inputs, qs, alpha, felts, r + 1);
    }
    assert(forall|i: int|
        0 <= i < 15 + air.nb_z() + air.ni_z() && (r < air.tr_z() || i >= 15) ==> #[trigger] e.per[i]
            == region_col(air.transcript(), i, r)) by {
        lemma_p4_env(air, t, pv, r);
    }
    lemma_p4_outer_laid(air, inputs, qs, alpha, felts, pv, e, r);
    if j >= 0 {
        lemma_p4_tile_laid(air, inputs, qs, alpha, felts, pv, q, j);
        assert(r == air.tr_z() + 8 * q + j);
    }
    reveal(p4_demand);
}

/// The carrier holds the combination challenge on every row.
proof fn lemma_p4_alpha_cell(
    air: Phase4AAir,
    inputs: Seq<Seq<int>>,
    qs: Seq<Query>,
    alpha: (int, int),
    felts: Seq<int>,
    r: int,
)
    requires
        air.fits(),
        0 <= r < air.height_z(),
        inputs_ok(inputs),
        np2(inputs.len() as int) == np2(air.counts.len() as int),
        qs.len() == air.n_queries,
        forall|i: int| #![trigger qs[i]] 0 <= i < qs.len() ==> qs[i].terms.len() <= air.n_terms,
    ensures
        pair(air.trace_row(inputs, qs, alpha, felts, r), air.carry_z()) == alpha,
{
    let d = r - air.tr_z();
    if d < 0 {
        lemma_p4_lanes(air, inputs, qs, alpha, felts, r);
    } else if d / 8 < air.n_queries {
        assert(qs[d / 8].terms.len() <= air.n_terms);
        lemma_p4_tile(air, inputs, qs, alpha, felts, d / 8, d % 8);
        assert(air.tr_z() + 8 * (d / 8) + d % 8 == r);
    }
}

/// What is demanded of row `j` of tile `q` of an honest trace.
#[verifier::spinoff_prover]
proof fn lemma_p4_tile_laid(
    air: Phase4AAir,
    inputs: Seq<Seq<int>>,
    qs: Seq<Query>,
    alpha: (int, int),
    felts: Seq<int>,
    pv: Seq<int>,
    q: int,
    j: int,
)
    requires
        air.fits(),
        air.rounds_z() <= 7,
        p4_honest(air, inputs, qs, alpha, felts, pv),
        0 <= q < air.n_queries,
        0 <= j < 8,
    ensures
        ({
            let base = air.tr_z() + 8 * q;
            let c = air.trace_row(inputs, qs, alpha, felts, base + j);
            let n = air.trace_row(inputs, qs, alpha, felts, base + j + 1);
            let nb = air.nb_z();
            let rem = air.idx_rem_z();
            &&& j == 0 ==> super::tiled::head_holds(c, air.n_terms as int) && econg(
                pair(c, 29),
                pair(c, air.carry_z()),
            )
            &&& j < air.rounds_z() ==> econg(pair(c, 4), pair(pv, 6 + 2 * j))
            &&& j == 0 ==> index_holds(c, pv[2 * nb + q], air.sb_x_z())
            &&& j < air.rounds_z() ==> red(c[rem] - 2 * n[rem] - c[6]) == 0
            &&& j < 7 ==> vanish(fold_polys(c, n))
            &&& j == 7 ==> econg(pair(c, 0), pair(pv, 2 * nb + air.ni_z()))
        }),
{
    let base = air.tr_z() + 8 * q;
    let c = air.trace_row(inputs, qs, alpha, felts, base + j);
    let n = air.trace_row(inputs, qs, alpha, felts, base + j + 1);
    let nt = air.n_terms as int;
    let qu = qs[q];
    assert(p4_query(air, qu, alpha, felts[q], pv, q));
    lemma_red_small(0);
    lemma_p4_tile(air, inputs, qs, alpha, felts, q, j);
    lemma_tile_row(qu, nt, j);
    let a = tile_row(qu, nt, j);
    let cc = chain_cells(qu.ro@, qu.rounds@, j);
    assert forall|i: int| 0 <= i < 9 implies #[trigger] c[i] == cc[i] by {
        assert(c[i] == a[i]);
    }
    assert(pair(c, 0) == running(qu.ro@, qu.rounds@, j as nat));
    if j == 0 {
        let h = head_cells(qu, 10);
        let x = super::cells::point_z(qu.index as int, 10);
        super::query_tile::lemma_terms_len(qu.terms@, x, qu.alpha@, qu.terms@.len());
        assert forall|i: int| 0 <= i < h.len() implies #[trigger] c[9 + i] == h[i] by {
            assert(c[9 + i] == a[9 + i]);
        }
        assert(head_at(c, qu, 9));
        assert(running(qu.ro@, qu.rounds@, 0) == qu.ro@);
        lemma_tile_head(c, qu);
        assert(pair(c, 29) == qu.alpha@) by {
            assert(c[9 + 20int] == h[20] && c[9 + 21int] == h[21]);
        }
        assert(c[air.sb_x_z() + 96] == shr_z(red(felts[q]) % 1024, 0));
        lemma_index_laid(c, qu, felts[q], pv[2 * air.nb_z() + q], air.sb_x_z());
    }
    if j < 7 {
        lemma_p4_tile(air, inputs, qs, alpha, felts, q, j + 1);
        lemma_tile_row(qu, nt, j + 1);
        let b = tile_row(qu, nt, j + 1);
        assert(base + (j + 1) == base + j + 1);
        assert forall|i: int| 0 <= i < 9 implies #[trigger] n[i] == chain_cells(
            qu.ro@,
            qu.rounds@,
            j + 1,
        )[i] by {
            assert(n[i] == b[i]);
        }
        lemma_chain_complete(qu.ro@, qu.rounds@, j, c, n);
    }
    if j < air.rounds_z() {
        let rd = qu.rounds@[j];
        assert(econg(rd.beta@, pair(pv, 6 + 2 * j)));
        assert(pair(c, 4) == rd.beta@) by {
            assert(c[4] == cc[4] && c[5] == cc[5]);
        }
        assert(c[6] == cc[6]);
        let v = red(felts[q]) % 1024;
        lemma_red_bound(felts[q]);
        lemma_shr(v, j as nat);
        assert(c[air.idx_rem_z()] == shr_z(v, j as nat));
        assert(n[air.idx_rem_z()] == shr_z(v, (j + 1) as nat));
        assert(shr_z(v, (j + 1) as nat) == shr_z(v, j as nat) / 2);
        assert(bit_of(qu.index as int, j) == shr_z(v, j as nat) % 2);
    }
}

/// The trace that is laid out for an honest transcript, and queries that are accepted, meets the
/// constraints.
pub proof fn law_phase4a_complete(
    air: Phase4AAir,
    inputs: Seq<Seq<int>>,
    qs: Seq<Query>,
    alpha: (int, int),
    felts: Seq<int>,
    pv: Seq<int>,
)
    requires
        air.fits(),
        air.rounds_z() <= 7,
        air.transcript().wf(),
        p4_honest(air, inputs, qs, alpha, felts, pv),
    ensures
        satisfied(
            |env: Env| air.polys(env),
            air.trace_z(inputs, qs, alpha, felts),
            air.cols_z(),
            pv,
        ),
{
    let t = air.trace_z(inputs, qs, alpha, felts);
    let polys = |env: Env| air.polys(env);
    air.lemma_height();
    assert forall|r: int|
        #![trigger row_env(t, air.cols_z(), pv, r)]
        0 <= r < t.len() implies holds(
        polys(row_env(t, air.cols_z(), pv, r)),
        r,
        t.len() as int,
    ) by {
        lemma_p4_env(air, t, pv, r);
        lemma_p4_holds(air, row_env(t, air.cols_z(), pv, r), r);
        lemma_p4_row_laid(air, inputs, qs, alpha, felts, pv, r);
    }
}

} // verus!
