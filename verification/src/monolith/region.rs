//! What the constraints of a transcript region and of the tiles beside it force: the region is a
//! transcript of its own, and each tile reads the challenges and the index that it binds.
use super::parts::{
    beta_polys, beta_z, carrier_list, index_list, low_bit_polys, opening_list, per_select, per_sum,
    point_list, tile_point, tile_terms, transcript_list,
};
use super::sponge::{
    bound, follows, ft_polys, inputs_ok, law_full_transcript_complete, law_full_transcript_sound,
    lemma_ft_holds, squeezed, trace_inputs, FullTranscriptAir,
};
use super::tiled::{head_holds, lemma_one, lemma_switch, start_polys};
use crate::bits::{bit_of, lemma_low_mod, lemma_low_whole, lemma_same_bits, low_z};
use crate::expr::{
    gated, holds, lemma_holds_concat, lemma_holds_gated, lemma_holds_push, pair, row_env, satisfied,
    scaled, vanish, Env, Gate,
};
use crate::field::{
    cong, econg, lemma_cong_add, lemma_cong_diff, lemma_cong_mul, lemma_red_small, red,
};
use crate::fri_merkle::canonical_cells;
use crate::gadget_laws::{bit_range, law_canonical_bits, lemma_number, lemma_recon, number};
use crate::gadgets::{
    apow_polys, bind_polys, bits_z, canon_polys, deep_polys, index_bind_polys, inv_polys, recon_z,
    ro_z, sponge_link, sponge_start,
};
use crate::poseidon2::{lanes, lemma_perm_row_bound, round_col, round_polys};
use crate::transcript::chain_trace;
use vstd::arithmetic::power2::{lemma2_to64, lemma_pow2_unfold, pow2};
use vstd::prelude::*;

verus! {

/// The transcript part at a row, group by group.
pub proof fn lemma_transcript_list(
    acc: Seq<(Gate, int)>,
    env: Env,
    rounds_on: int,
    links_on: int,
    nb: int,
    ib: Seq<(usize, usize)>,
    r: int,
    h: int,
)
    requires
        rounds_on == 0 || rounds_on == 1,
        links_on == 0 || links_on == 1,
    ensures
        holds(transcript_list(acc, env, rounds_on, links_on, nb, ib), r, h) <==> {
            &&& holds(acc, r, h)
            &&& r != h - 1 && rounds_on == 1 ==> vanish(
                round_polys(lanes(env.cur, 0), lanes(env.nxt, 0), env.per),
            )
            &&& r == 0 ==> vanish(sponge_start(env.cur, env.per[12]))
            &&& r != h - 1 && links_on == 1 ==> vanish(sponge_link(env.cur, env.nxt, env.per))
            &&& vanish(bind_polys(env.cur, env.per, env.pis, nb))
            &&& vanish(index_bind_polys(env.cur, env.per, env.pis, nb, ib))
        },
{
    let p1 = round_polys(lanes(env.cur, 0), lanes(env.nxt, 0), env.per);
    let p2 = sponge_start(env.cur, env.per[12]);
    let p3 = sponge_link(env.cur, env.nxt, env.per);
    let p4 = bind_polys(env.cur, env.per, env.pis, nb);
    let p5 = index_bind_polys(env.cur, env.per, env.pis, nb, ib);
    let (s1, s3) = (scaled(rounds_on, p1), scaled(links_on, p3));
    lemma_switch(rounds_on, p1);
    lemma_switch(links_on, p3);
    let (g1, g2) = (gated(Gate::Transition, s1), gated(Gate::First, p2));
    let (g3, g4, g5) = (
        gated(Gate::Transition, s3),
        gated(Gate::Always, p4),
        gated(Gate::Always, p5),
    );
    lemma_holds_gated(Gate::Transition, s1, r, h);
    lemma_holds_gated(Gate::First, p2, r, h);
    lemma_holds_gated(Gate::Transition, s3, r, h);
    lemma_holds_gated(Gate::Always, p4, r, h);
    lemma_holds_gated(Gate::Always, p5, r, h);
    lemma_holds_concat(acc, g1, r, h);
    lemma_holds_concat(acc + g1, g2, r, h);
    lemma_holds_concat(acc + g1 + g2, g3, r, h);
    lemma_holds_concat(acc + g1 + g2 + g3, g4, r, h);
    lemma_holds_concat(acc + g1 + g2 + g3 + g4, g5, r, h);
}

/// The carrier of the combination challenge at a row.
pub proof fn lemma_carrier_list(acc: Seq<(Gate, int)>, env: Env, carry: int, r: int, h: int)
    requires
        env.per[17] == 0 || env.per[17] == 1,
    ensures
        holds(carrier_list(acc, env, carry), r, h) <==> {
            &&& holds(acc, r, h)
            &&& r != h - 1 ==> econg(pair(env.nxt, carry), pair(env.cur, carry))
            &&& env.per[17] == 1 ==> squeezed(env.cur, pair(env.cur, carry))
        },
{
    let on = env.per[17];
    let (c, n) = (env.cur, env.nxt);
    let x1 = (Gate::Transition, n[carry] - c[carry]);
    let x2 = (Gate::Transition, n[carry + 1] - c[carry + 1]);
    let x3 = (Gate::Always, on * (c[carry] - c[3]));
    let x4 = (Gate::Always, on * (c[carry + 1] - c[2]));
    lemma_holds_push(acc, x1, r, h);
    lemma_holds_push(acc.push(x1), x2, r, h);
    lemma_holds_push(acc.push(x1).push(x2), x3, r, h);
    lemma_holds_push(acc.push(x1).push(x2).push(x3), x4, r, h);
    lemma_one(on, c[carry] - c[3]);
    lemma_one(on, c[carry + 1] - c[2]);
    lemma_cong_diff(n[carry], c[carry]);
    lemma_cong_diff(n[carry + 1], c[carry + 1]);
    lemma_cong_diff(c[carry], c[3]);
    lemma_cong_diff(c[carry + 1], c[2]);
}

/// The index part at a row. Off the heads of the tiles nothing is selected.
pub proof fn lemma_index_list(
    acc: Seq<(Gate, int)>,
    env: Env,
    on: int,
    selected: int,
    sb_x: int,
    r: int,
    h: int,
)
    requires
        on == 0 || on == 1,
        on == 0 ==> selected == 0,
    ensures
        holds(index_list(acc, env, on, selected, sb_x), r, h) <==> {
            &&& holds(acc, r, h)
            &&& on == 1 ==> index_holds(env.cur, selected, sb_x)
        },
{
    let c = env.cur;
    let x1 = (Gate::Always, on * c[sb_x] - selected);
    let p2 = canon_polys(c, sb_x, sb_x + 1, sb_x + 65);
    let p3 = low_bit_polys(c, sb_x + 1);
    let d = c[sb_x + 96] - recon_z(c, sb_x + 1, 10);
    let x4 = (Gate::Always, on * d);
    lemma_holds_push(acc, x1, r, h);
    lemma_switch(on, p2);
    lemma_switch(on, p3);
    let (s2, s3) = (scaled(on, p2), scaled(on, p3));
    let (g2, g3) = (gated(Gate::Always, s2), gated(Gate::Always, s3));
    lemma_holds_gated(Gate::Always, s2, r, h);
    lemma_holds_gated(Gate::Always, s3, r, h);
    lemma_holds_concat(acc.push(x1), g2, r, h);
    lemma_holds_concat(acc.push(x1) + g2, g3, r, h);
    lemma_holds_push(acc.push(x1) + g2 + g3, x4, r, h);
    lemma_one(on, d);
    lemma_red_small(0);
    assert(1 * c[sb_x] == c[sb_x] && 0 * c[sb_x] == 0);
    lemma_cong_diff(c[sb_x], selected);
    lemma_cong_diff(c[sb_x + 96], recon_z(c, sb_x + 1, 10));
}

/// What the index part demands of the head of a tile.
pub open spec fn index_holds(row: Seq<int>, selected: int, sb_x: int) -> bool {
    &&& cong(row[sb_x], selected)
    &&& vanish(canon_polys(row, sb_x, sb_x + 1, sb_x + 65))
    &&& vanish(low_bit_polys(row, sb_x + 1))
    &&& cong(row[sb_x + 96], recon_z(row, sb_x + 1, 10))
}

/// The index of a tile: the low bits of the canonical representative of the selected element.
pub proof fn lemma_index_holds(row: Seq<int>, selected: int, sb_x: int)
    requires
        index_holds(row, selected, sb_x),
    ensures
        number(row, 9, 10) == red(selected) % 1024,
        cong(row[sb_x + 96], red(selected) % 1024),
{
    law_canonical_bits(row, sb_x, sb_x + 1, sb_x + 65);
    let v = red(selected);
    let low = low_bit_polys(row, sb_x + 1);
    assert forall|i: int| 0 <= i < 10 implies red(#[trigger] row[9 + i]) == bit_of(v, i) by {
        assert(red(low[i]) == 0);
        lemma_cong_diff(row[9 + i], row[sb_x + 1 + i]);
    }
    assert(bit_range(row, 9, 10));
    assert forall|i: int| 0 <= i < 10 implies red(#[trigger] row[sb_x + 1 + i]) == 0 || red(
        row[sb_x + 1 + i],
    ) == 1 by {}
    assert(bit_range(row, sb_x + 1, 10));
    lemma_number(row, 9, 10);
    lemma_number(row, sb_x + 1, 10);
    lemma_recon(row, sb_x + 1, 10);
    let (a, b) = (number(row, 9, 10), number(row, sb_x + 1, 10));
    assert forall|i: int| 0 <= i < 10 implies #[trigger] bit_of(a, i) == bit_of(b, i) by {
        assert(bit_of(a, i) == red(row[9 + i]));
        assert(bit_of(b, i) == red(row[sb_x + 1 + i]));
    }
    lemma_same_bits(a, b, 10);
    lemma2_to64();
    crate::field::lemma_red_bound(selected);
    lemma_low_mod(v, 10);
    lemma_low_whole(a, 10);
    lemma_low_same(a, v, 10);
}

/// Numbers with the same low bits have the same low part.
proof fn lemma_low_same(a: int, b: int, n: nat)
    requires
        forall|i: int| 0 <= i < n ==> #[trigger] bit_of(a, i) == bit_of(b, i),
    ensures
        low_z(a, n) == low_z(b, n),
    decreases n,
{
    if n > 0 {
        lemma_low_same(a, b, (n - 1) as nat);
        assert(bit_of(a, n - 1) == bit_of(b, n - 1));
    }
}

/// The fold challenges at a row.
pub proof fn lemma_beta_polys(env: Env, p_round: int, n_rounds: int, j: int)
    requires
        vanish(beta_polys(env, p_round, n_rounds)),
        0 <= j < n_rounds,
        env.per[p_round + j] == 1,
    ensures
        econg(pair(env.cur, 4), pair(env.pis, 6 + 2 * j)),
{
    let b = beta_polys(env, p_round, n_rounds);
    assert((2 * j) / 2 == j && (2 * j) % 2 == 0 && (2 * j + 1) / 2 == j && (2 * j + 1) % 2 == 1);
    assert(red(b[2 * j]) == 0 && red(b[2 * j + 1]) == 0);
    assert(b[2 * j] == beta_z(env, p_round, 2 * j));
    assert(b[2 * j + 1] == beta_z(env, p_round, 2 * j + 1));
    lemma_one(1, env.cur[4] - env.pis[6 + 2 * j]);
    lemma_one(1, env.cur[5] - env.pis[6 + 2 * j + 1]);
    lemma_cong_diff(env.cur[4], env.pis[6 + 2 * j]);
    lemma_cong_diff(env.cur[5], env.pis[6 + 2 * j + 1]);
}

/// A selection with one set bit.
pub proof fn lemma_select_one(p: Seq<int>, from: int, v: Seq<int>, at: int, n: nat, q: int)
    requires
        forall|i: int|
            0 <= i < n ==> #[trigger] p[from + i] == (if i == q {
                1int
            } else {
                0int
            }),
    ensures
        per_select(p, from, v, at, n) == (if 0 <= q < n {
            v[at + q]
        } else {
            0
        }),
    decreases n,
{
    if n > 0 {
        let m = n - 1;
        lemma_select_one(p, from, v, at, m as nat, q);
        assert(p[from + m] == p[from + n - 1]);
        let (x, y) = (p[from + n - 1], v[at + n - 1]);
        assert((x == 0 ==> x * y == 0) && (x == 1 ==> x * y == y)) by (nonlinear_arith);
    }
}

/// The rows of a transcript region meet the constraints of a transcript of their own.
pub proof fn lemma_region(
    air: FullTranscriptAir,
    t: Seq<Seq<int>>,
    pc: Seq<Seq<int>>,
    pv: Seq<int>,
)
    requires
        air.wf(),
        air.padded_z() > 0,
        t.len() >= air.padded_z() * 32,
        canonical_cells(t, 8),
        forall|r: int|
            0 <= r < air.padded_z() * 32 ==> region_row(
                air,
                #[trigger] row_env(t, pc, pv, r),
                r,
            ),
    ensures
        follows(trace_inputs(t, air.padded_z() as nat), air.counts@),
        bound(air, trace_inputs(t, air.padded_z() as nat), pv),
{
    let tr = air.padded_z() * 32;
    let s = t.subrange(0, tr);
    let ft = air.cols_z();
    let nb = air.binds.len() as int;
    let ib = air.index_binds@;
    let polys = |env: Env| ft_polys(env, nb, ib);
    assert forall|r: int|
        #![trigger row_env(s, ft, pv, r)]
        0 <= r < s.len() implies holds(polys(row_env(s, ft, pv, r)), r, s.len() as int) by {
        let e = row_env(t, pc, pv, r);
        assert(region_row(air, e, r));
        let f = row_env(s, ft, pv, r);
        vstd::arithmetic::div_mod::lemma_small_mod(r as nat, tr as nat);
        assert forall|j: int| 0 <= j < 15 + nb + ib.len() implies #[trigger] f.per[j] == e.per[j] by {
            assert(e.per[j] == region_col(air, j, r));
            if j <= 11 {
                assert(ft[j].len() == 32);
            } else {
                assert(ft[j].len() == tr);
            }
        }
        lemma_same_row(e, f, nb, ib, r, tr);
        lemma_ft_holds(f, nb, ib, r, tr);
    }
    assert(canonical_cells(s, 8));
    law_full_transcript_sound(air, s, pv);
    assert(trace_inputs(s, air.padded_z() as nat) =~= trace_inputs(t, air.padded_z() as nat)) by {
        assert forall|b: int| 0 <= b < air.padded_z() implies #[trigger] trace_inputs(
            s,
            air.padded_z() as nat,
        )[b] == trace_inputs(t, air.padded_z() as nat)[b] by {
            assert(s[32 * b] == t[32 * b]);
        }
    }
}

/// Periodic value `j` at row `r` of a transcript region.
pub open spec fn region_col(air: FullTranscriptAir, j: int, r: int) -> int {
    if j < 11 {
        round_col(j, r % 32)
    } else {
        air.col(j, r)
    }
}

/// What is known of a row of a transcript region: its periodic values, and its constraints.
pub open spec fn region_row(air: FullTranscriptAir, env: Env, r: int) -> bool {
    let nb = air.binds.len() as int;
    let ib = air.index_binds@;
    &&& forall|j: int|
        0 <= j < 15 + nb + ib.len() ==> #[trigger] env.per[j] == region_col(air, j, r)
    &&& r != air.padded_z() * 32 - 1 ==> vanish(
        round_polys(lanes(env.cur, 0), lanes(env.nxt, 0), env.per),
    )
    &&& r == 0 ==> vanish(sponge_start(env.cur, env.per[12]))
    &&& r != air.padded_z() * 32 - 1 ==> vanish(sponge_link(env.cur, env.nxt, env.per))
    &&& vanish(bind_polys(env.cur, env.per, env.pis, nb))
    &&& vanish(index_bind_polys(env.cur, env.per, env.pis, nb, ib))
}

/// The transcript constraints read only the first eight cells and the first periodic columns.
proof fn lemma_same_row(e: Env, f: Env, nb: int, ib: Seq<(usize, usize)>, r: int, tr: int)
    requires
        nb >= 0,
        lanes(f.cur, 0) == lanes(e.cur, 0),
        f.pis == e.pis,
        r != tr - 1 ==> lanes(f.nxt, 0) == lanes(e.nxt, 0),
        forall|j: int| 0 <= j < 15 + nb + ib.len() ==> #[trigger] f.per[j] == e.per[j],
        forall|k: int| 0 <= k < ib.len() ==> (#[trigger] ib[k]).1 < 8,
    ensures
        r != tr - 1 ==> round_polys(lanes(f.cur, 0), lanes(f.nxt, 0), f.per) == round_polys(
            lanes(e.cur, 0),
            lanes(e.nxt, 0),
            e.per,
        ),
        sponge_start(f.cur, f.per[12]) == sponge_start(e.cur, e.per[12]),
        r != tr - 1 ==> sponge_link(f.cur, f.nxt, f.per) == sponge_link(e.cur, e.nxt, e.per),
        bind_polys(f.cur, f.per, f.pis, nb) == bind_polys(e.cur, e.per, e.pis, nb),
        index_bind_polys(f.cur, f.per, f.pis, nb, ib) == index_bind_polys(
            e.cur,
            e.per,
            e.pis,
            nb,
            ib,
        ),
{
    reveal(round_polys);
    lemma_same_lanes(f.cur, e.cur);
    if r != tr - 1 {
        lemma_same_lanes(f.nxt, e.nxt);
    }
    assert(f.per[0] == e.per[0] && f.per[1] == e.per[1] && f.per[2] == e.per[2]);
    assert(lanes(f.per, 3) =~= lanes(e.per, 3)) by {
        assert forall|i: int| 0 <= i < 8 implies #[trigger] lanes(f.per, 3)[i] == lanes(
            e.per,
            3,
        )[i] by {
            assert(f.per[3 + i] == e.per[3 + i]);
        }
    }
    assert(f.per[11] == e.per[11] && f.per[12] == e.per[12] && f.per[13] == e.per[13] && f.per[14]
        == e.per[14]);
    if r != tr - 1 {
        assert(round_polys(lanes(f.cur, 0), lanes(f.nxt, 0), f.per) =~= round_polys(
            lanes(e.cur, 0),
            lanes(e.nxt, 0),
            e.per,
        ));
    }
    let (a, b) = (bind_polys(f.cur, f.per, f.pis, nb), bind_polys(e.cur, e.per, e.pis, nb));
    assert forall|j: int| 0 <= j < 2 * nb implies #[trigger] a[j] == b[j] by {
        assert(f.per[15 + j / 2] == e.per[15 + j / 2]);
    }
    assert(a =~= b);
    let (x, y) = (
        index_bind_polys(f.cur, f.per, f.pis, nb, ib),
        index_bind_polys(e.cur, e.per, e.pis, nb, ib),
    );
    assert forall|k: int| 0 <= k < ib.len() implies #[trigger] x[k] == y[k] by {
        assert(f.per[15 + nb + k] == e.per[15 + nb + k]);
        assert(ib[k].1 < 8);
        assert(f.cur[ib[k].1 as int] == e.cur[ib[k].1 as int]);
    }
    assert(x =~= y);
}

proof fn lemma_same_lanes(a: Seq<int>, b: Seq<int>)
    requires
        lanes(a, 0) == lanes(b, 0),
    ensures
        forall|i: int| 0 <= i < 8 ==> #[trigger] a[i] == b[i],
        a[0] == b[0] && a[1] == b[1] && a[2] == b[2] && a[3] == b[3],
        a[4] == b[4] && a[5] == b[5] && a[6] == b[6] && a[7] == b[7],
{
    let (x, y) = (lanes(a, 0), lanes(b, 0));
    assert(x[0] == y[0] && x[1] == y[1] && x[2] == y[2] && x[3] == y[3] && x[4] == y[4] && x[5]
        == y[5] && x[6] == y[6] && x[7] == y[7]);
    assert forall|i: int| 0 <= i < 8 implies #[trigger] a[i] == b[i] by {
        assert(x[i] == y[i]);
    }
}

/// A row of a transcript that follows its schedule and gives the public values meets what is demanded
/// of a transcript region, whatever stands beside its lanes.
pub proof fn lemma_region_laid(
    air: FullTranscriptAir,
    inputs: Seq<Seq<int>>,
    e: Env,
    r: int,
)
    requires
        air.wf(),
        inputs.len() == air.padded_z(),
        inputs_ok(inputs),
        follows(inputs, air.counts@),
        bound(air, inputs, e.pis),
        0 <= r < air.padded_z() * 32,
        forall|j: int|
            0 <= j < 15 + air.binds.len() + air.index_binds.len() ==> #[trigger] e.per[j]
                == region_col(air, j, r),
        lanes(e.cur, 0) == chain_trace(inputs)[r],
        r + 1 < air.padded_z() * 32 ==> lanes(e.nxt, 0) == chain_trace(inputs)[r + 1],
    ensures
        region_row(air, e, r),
{
    let (t, pv, ft) = (chain_trace(inputs), e.pis, air.cols_z());
    let (nb, ib) = (air.binds.len() as int, air.index_binds@);
    let tr = air.padded_z() * 32;
    let polys = |env: Env| ft_polys(env, nb, ib);
    law_full_transcript_complete(air, inputs, pv);
    assert(satisfied(polys, t, ft, pv));
    let f = row_env(t, ft, pv, r);
    assert(holds(polys(f), r, tr));
    lemma_ft_holds(f, nb, ib, r, tr);
    vstd::arithmetic::div_mod::lemma_small_mod(r as nat, tr as nat);
    assert forall|j: int| 0 <= j < 15 + nb + ib.len() implies #[trigger] f.per[j] == e.per[j] by {
        assert(e.per[j] == region_col(air, j, r));
        if j <= 11 {
            assert(ft[j].len() == 32);
        } else {
            assert(ft[j].len() == tr);
        }
    }
    lemma_perm_row_bound(inputs[r / 32], (r % 32) as nat);
    assert(lanes(f.cur, 0) =~= t[r]);
    if r + 1 < tr {
        lemma_perm_row_bound(inputs[(r + 1) / 32], ((r + 1) % 32) as nat);
        assert(lanes(f.nxt, 0) =~= t[r + 1]);
    }
    lemma_same_row(e, f, nb, ib, r, tr);
}

/// Where no binding column is set, nothing is bound.
pub proof fn lemma_unbound(c: Seq<int>, p: Seq<int>, pv: Seq<int>, nb: int, ib: Seq<(usize, usize)>)
    requires
        nb >= 0,
        forall|j: int| 15 <= j < 15 + nb + ib.len() ==> #[trigger] p[j] == 0,
    ensures
        vanish(bind_polys(c, p, pv, nb)),
        vanish(index_bind_polys(c, p, pv, nb, ib)),
{
    lemma_red_small(0);
    let (b, x) = (bind_polys(c, p, pv, nb), index_bind_polys(c, p, pv, nb, ib));
    assert forall|j: int| 0 <= j < b.len() implies red(#[trigger] b[j]) == 0 by {
        assert(p[15 + j / 2] == 0);
        if j % 2 == 0 {
            lemma_one(0, c[3] - pv[j]);
        } else {
            lemma_one(0, c[2] - pv[j]);
        }
    }
    assert forall|k: int| 0 <= k < x.len() implies red(#[trigger] x[k]) == 0 by {
        assert(p[15 + nb + k] == 0);
        lemma_one(0, c[ib[k].1 as int] - pv[2 * nb + k]);
    }
}

/// A pair of cells that every row hands to the next is the same on all rows.
pub proof fn lemma_held(t: Seq<Seq<int>>, col: int, a: int, b: int)
    requires
        0 <= a <= b < t.len(),
        forall|r: int|
            #![trigger t[r]]
            0 <= r < t.len() - 1 ==> econg(pair(t[r + 1], col), pair(t[r], col)),
    ensures
        econg(pair(t[b], col), pair(t[a], col)),
    decreases b - a,
{
    if a < b {
        lemma_held(t, col, a, b - 1);
        assert(econg(pair(t[(b - 1) + 1], col), pair(t[b - 1], col)));
    }
}

/// The number that the first `k` fold slots from row `base` on make up.
pub open spec fn slots_z(t: Seq<Seq<int>>, base: int, k: nat) -> int
    decreases k,
{
    if k == 0 {
        0
    } else {
        slots_z(t, base, (k - 1) as nat) + t[base + k - 1][6] * pow2((k - 1) as nat)
    }
}

/// The shift register: the index is what its first `k` slots make up, and what remains above them.
pub proof fn lemma_shift(t: Seq<Seq<int>>, base: int, rem: int, k: nat)
    requires
        forall|j: int|
            #![trigger t[base + j]]
            0 <= j < k ==> red(t[base + j][rem] - 2 * t[base + j + 1][rem] - t[base + j][6]) == 0,
    ensures
        cong(t[base][rem], slots_z(t, base, k) + pow2(k) * t[base + k][rem]),
    decreases k,
{
    lemma2_to64();
    if k > 0 {
        let m = (k - 1) as nat;
        lemma_shift(t, base, rem, m);
        let (x, y, s) = (t[base + m][rem], t[base + k][rem], t[base + m][6]);
        assert(red(t[base + m][rem] - 2 * t[base + m + 1][rem] - t[base + m][6]) == 0);
        assert(base + m + 1 == base + k && base + k - 1 == base + m);
        lemma_cong_diff(x, 2 * y + s);
        let (p, z) = (pow2(m) as int, slots_z(t, base, m));
        lemma_pow2_unfold(k);
        lemma_cong_mul(p, p, x, 2 * y + s);
        lemma_cong_add(z, z, p * x, p * (2 * y + s));
        assert(z + p * (2 * y + s) == z + s * p + (2 * p) * y) by (nonlinear_arith);
    } else {
        assert(1 * t[base][rem] == t[base][rem]);
        assert(t[base + 0] == t[base]);
    }
}

/// What a tile has from the transcript: its combination challenge, its index and its fold
/// challenges are those that the public values give, and its slots are the low bits of its index up
/// to what remains.
pub open spec fn tile_bound(
    t: Seq<Seq<int>>,
    base: int,
    pv: Seq<int>,
    nb: int,
    q: int,
    rem: int,
) -> bool {
    let index = red(pv[2 * nb + q]) % 1024;
    &&& econg(pair(t[base], 29), pair(pv, 4))
    &&& number(t[base], 9, 10) == index
    &&& forall|j: int|
        #![trigger t[base + j]]
        0 <= j < nb - 3 ==> econg(pair(t[base + j], 4), pair(pv, 6 + 2 * j))
    &&& forall|k: nat|
        #![trigger slots_z(t, base, k)]
        k <= nb - 3 ==> cong(index, slots_z(t, base, k) + pow2(k) * t[base + k][rem])
}

/// A sum with one set bit.
pub proof fn lemma_sum_one(p: Seq<int>, from: int, n: nat, j: int)
    requires
        forall|i: int|
            0 <= i < n ==> #[trigger] p[from + i] == (if i == j {
                1int
            } else {
                0int
            }),
    ensures
        per_sum(p, from, n) == (if 0 <= j < n {
            1int
        } else {
            0int
        }),
    decreases n,
{
    if n > 0 {
        let m = n - 1;
        lemma_sum_one(p, from, m as nat, j);
        assert(p[from + m] == p[from + n - 1]);
    }
}

/// The index bits and the product chain where `on` is set.
pub proof fn lemma_point_list(acc: Seq<(Gate, int)>, env: Env, on: int, r: int, h: int)
    requires
        on == 0 || on == 1,
    ensures
        holds(point_list(acc, env, on), r, h) <==> holds(acc, r, h) && (on == 1 ==> vanish(
            bits_z(env.cur, 9, 10),
        ) && vanish(deep_polys(env.cur, 9, 19, 10))),
{
    let (p1, p2) = (bits_z(env.cur, 9, 10), deep_polys(env.cur, 9, 19, 10));
    let (s1, s2) = (scaled(on, p1), scaled(on, p2));
    lemma_switch(on, p1);
    lemma_switch(on, p2);
    let (g1, g2) = (gated(Gate::Always, s1), gated(Gate::Always, s2));
    lemma_holds_gated(Gate::Always, s1, r, h);
    lemma_holds_gated(Gate::Always, s2, r, h);
    lemma_holds_concat(acc, g1, r, h);
    lemma_holds_concat(acc + g1, g2, r, h);
}

/// The reduced opening where `on` is set.
pub proof fn lemma_opening_list(acc: Seq<(Gate, int)>, env: Env, on: int, n: int, r: int, h: int)
    requires
        on == 0 || on == 1,
    ensures
        holds(opening_list(acc, env, on, n), r, h) <==> holds(acc, r, h) && (on == 1 ==> vanish(
            apow_polys(env.cur, 29, tile_terms(n)),
        ) && vanish(inv_polys(env.cur, tile_point(env.cur), tile_terms(n))) && vanish(
            start_polys(env.cur, tile_terms(n)),
        )),
{
    let cols = tile_terms(n);
    let ro = ro_z(env.cur, cols, cols.len());
    let (p3, p4) = (apow_polys(env.cur, 29, cols), inv_polys(env.cur, tile_point(env.cur), cols));
    let (s3, s4) = (scaled(on, p3), scaled(on, p4));
    lemma_switch(on, p3);
    lemma_switch(on, p4);
    let (g3, g4) = (gated(Gate::Always, s3), gated(Gate::Always, s4));
    lemma_holds_gated(Gate::Always, s3, r, h);
    lemma_holds_gated(Gate::Always, s4, r, h);
    lemma_holds_concat(acc, g3, r, h);
    lemma_holds_concat(acc + g3, g4, r, h);
    let all = acc + g3 + g4;
    let l0 = (Gate::Always, on * (env.cur[0] - ro.0));
    let l1 = (Gate::Always, on * (env.cur[1] - ro.1));
    lemma_holds_push(all, l0, r, h);
    lemma_holds_push(all.push(l0), l1, r, h);
    lemma_one(on, env.cur[0] - ro.0);
    lemma_one(on, env.cur[1] - ro.1);
    let s = start_polys(env.cur, cols);
    if vanish(s) {
        assert(red(s[0]) == 0 && red(s[1]) == 0);
    }
}

/// The head of a tile that reads its combination challenge from the column `carry`.
pub open spec fn bound_head_list(
    acc: Seq<(Gate, int)>,
    env: Env,
    on: int,
    carry: int,
    n: int,
) -> Seq<(Gate, int)> {
    opening_list(
        point_list(acc, env, on).push((Gate::Always, on * (env.cur[29] - env.cur[carry]))).push(
            (Gate::Always, on * (env.cur[30] - env.cur[carry + 1])),
        ),
        env,
        on,
        n,
    )
}

pub proof fn lemma_bound_head(
    acc: Seq<(Gate, int)>,
    env: Env,
    on: int,
    carry: int,
    n: int,
    r: int,
    h: int,
)
    requires
        on == 0 || on == 1,
    ensures
        holds(bound_head_list(acc, env, on, carry, n), r, h) <==> holds(acc, r, h) && (on == 1
            ==> head_holds(env.cur, n) && econg(pair(env.cur, 29), pair(env.cur, carry))),
{
    let c = env.cur;
    lemma_point_list(acc, env, on, r, h);
    let a = point_list(acc, env, on);
    let x1 = (Gate::Always, on * (c[29] - c[carry]));
    let x2 = (Gate::Always, on * (c[30] - c[carry + 1]));
    lemma_holds_push(a, x1, r, h);
    lemma_holds_push(a.push(x1), x2, r, h);
    lemma_one(on, c[29] - c[carry]);
    lemma_one(on, c[30] - c[carry + 1]);
    lemma_cong_diff(c[29], c[carry]);
    lemma_cong_diff(c[30], c[carry + 1]);
    lemma_opening_list(a.push(x1).push(x2), env, on, n, r, h);
}

/// Where `j` is the row of a tile that the one-hot columns mark, the fold challenges are those of
/// round `j`; on other rows nothing is demanded.
pub proof fn lemma_beta_row(env: Env, p_round: int, n_rounds: int, j: int)
    requires
        n_rounds >= 0,
        forall|i: int|
            0 <= i < n_rounds ==> #[trigger] env.per[p_round + i] == (if i == j {
                1int
            } else {
                0int
            }),
    ensures
        vanish(beta_polys(env, p_round, n_rounds)) <==> (0 <= j < n_rounds ==> econg(
            pair(env.cur, 4),
            pair(env.pis, 6 + 2 * j),
        )),
{
    let b = beta_polys(env, p_round, n_rounds);
    if vanish(b) && 0 <= j < n_rounds {
        assert(env.per[p_round + j] == 1);
        lemma_beta_polys(env, p_round, n_rounds, j);
    }
    if 0 <= j < n_rounds ==> econg(pair(env.cur, 4), pair(env.pis, 6 + 2 * j)) {
        assert forall|i: int| 0 <= i < b.len() implies red(#[trigger] b[i]) == 0 by {
            let k = i / 2;
            assert(env.per[p_round + k] == (if k == j {
                1int
            } else {
                0int
            }));
            let d = env.cur[4 + i % 2] - env.pis[6 + i];
            lemma_one(env.per[p_round + k], d);
            if k == j {
                lemma_cong_diff(env.cur[4], env.pis[6 + 2 * j]);
                lemma_cong_diff(env.cur[5], env.pis[6 + 2 * j + 1]);
                assert(i == 2 * j || i == 2 * j + 1);
            }
        }
    }
}

} // verus!
