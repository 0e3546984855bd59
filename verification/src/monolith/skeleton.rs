//! Regions of one trace: a sponge that runs on the first blocks only, and a carrier that takes what
//! it squeezes to the last row.
use super::cells::{put_ext, zero_cells, zeros};
use super::sponge::{ft_input, lemma_squeeze, squeeze_exprs, squeeze_polys, squeezed};
use super::tiled::{lemma_one, lemma_switch};
use crate::cols::{range_col, range_z};
use crate::expr::{
    cells, cst, cur, denote, emit_all, Constraint, Env, Expr, gated, Gate, holds,
    lemma_holds_concat, lemma_holds_gated, nxt, pair, per, pis, row_env, satisfied, scale_all,
    scaled, Trace, vals, vanish,
};
use crate::field::{cong, ints, lemma_cong_diff, lemma_red_small, red, Challenge};
use crate::fri_merkle::{block_cols, periodic};
use crate::poseidon2::{
    lanes, lemma_perm_row_bound, lemma_perm_step, lemma_round_idle, lemma_rounds_vanish,
    native_permute, perm, perm_row, round_col, round_exprs, round_polys, round_row, ROUND_COLS, W,
};
use crate::transcript::push_block;
use vstd::prelude::*;

verus! {

/// The blocks of the sponge region.
pub const SK_TB: usize = 4;

/// Periodic columns behind those of the blocks: the sponge region, and its last row.
pub const SK_S_POSEIDON: usize = 12;

pub const SK_P_OUT: usize = 13;

pub const SK_N_PERIODIC: usize = 14;

/// The rows of the sponge region, and of the trace.
pub const SK_REGION: usize = 128;

pub const SK_HEIGHT: usize = 256;

/// The state that the sponge starts from.
pub open spec fn seed() -> Seq<int> {
    seq![1int, 0, 0, 0, 0, 0, 0, 0]
}

/// The first row is the seed.
pub open spec fn seed_polys(c: Seq<int>) -> Seq<int> {
    seq![c[0] - 1, c[1], c[2], c[3], c[4], c[5], c[6], c[7]]
}

fn seed_exprs() -> (r: Vec<Expr>)
    ensures
        r.len() == 8,
        forall|env: Env| #[trigger] vals(r@, env) == seed_polys(env.cur),
{
    let r: Vec<Expr> = vec![
        cur(0).minus(&cst(1)),
        cur(1),
        cur(2),
        cur(3),
        cur(4),
        cur(5),
        cur(6),
        cur(7),
    ];
    proof {
        assert forall|env: Env| #[trigger] vals(r@, env) == seed_polys(env.cur) by {
            assert(vals(r@, env) =~= seed_polys(env.cur));
        }
    }
    r
}

/// The sponge of the region.
pub open spec fn region_polys(env: Env) -> Seq<(Gate, int)> {
    gated(
        Gate::Transition,
        scaled(env.per[12], round_polys(lanes(env.cur, 0), lanes(env.nxt, 0), env.per)),
    ) + gated(Gate::First, seed_polys(env.cur))
}

fn region_exprs() -> (out: Vec<Constraint>)
    ensures
        forall|env: Env| #[trigger] denote(out@, env) == region_polys(env),
{
    let mut out: Vec<Constraint> = Vec::new();
    emit_all(&mut out, Gate::Transition, &scale_all(&per(SK_S_POSEIDON), &round_exprs(0)));
    emit_all(&mut out, Gate::First, &seed_exprs());
    proof {
        assert forall|env: Env| #[trigger] denote(out@, env) == region_polys(env) by {
            assert(denote(out@, env) =~= region_polys(env));
        }
    }
    out
}

/// The periodic columns.
pub open spec fn region_cols() -> Seq<Seq<int>> {
    block_cols().push(Seq::new(256, |r: int| range_z(r, 0, 128))).push(
        Seq::new(256, |r: int| range_z(r, 127, 128)),
    )
}

/// The sponge region alone. The public values are what the region squeezes at its end.
pub struct MonolithSkeletonAir;

pub open spec fn skeleton_polys(env: Env) -> Seq<(Gate, int)> {
    region_polys(env) + gated(Gate::Always, squeeze_polys(env, env.per[13], 0))
}

impl MonolithSkeletonAir {
    pub fn height(&self) -> (r: usize)
        ensures
            r == SK_HEIGHT,
    {
        SK_HEIGHT
    }

    pub fn width(&self) -> (r: usize)
        ensures
            r == W,
    {
        W
    }

    pub fn num_public_values(&self) -> (r: usize)
        ensures
            r == 2,
    {
        2
    }

    pub fn num_periodic_columns(&self) -> (r: usize)
        ensures
            r == SK_N_PERIODIC,
    {
        SK_N_PERIODIC
    }

    pub fn periodic(&self) -> (cols: Vec<Vec<u64>>)
        ensures
            cells(cols@) == region_cols(),
    {
        let mut cols: Vec<Vec<u64>> = periodic();
        let ghost before = cols@;
        assert(cells(before) == block_cols());
        cols.push(range_col(SK_HEIGHT, 0, SK_REGION));
        cols.push(range_col(SK_HEIGHT, SK_REGION - 1, SK_REGION));
        proof {
            let want = region_cols();
            assert(before.len() == 12) by {
                assert(cells(before).len() == block_cols().len());
            }
            assert forall|j: int| 0 <= j < 14 implies #[trigger] cells(cols@)[j] == want[j] by {
                if j < 12 {
                    assert(cells(before)[j] == block_cols()[j]);
                } else {
                    assert(cells(cols@)[j] =~= want[j]);
                }
            }
            assert(cells(cols@) =~= want);
        }
        cols
    }

    pub fn eval(&self) -> (r: Vec<Constraint>)
        ensures
            forall|env: Env| #[trigger] denote(r@, env) == skeleton_polys(env),
    {
        let mut out: Vec<Constraint> = region_exprs();
        emit_all(&mut out, Gate::Always, &squeeze_exprs(&per(SK_P_OUT), 0));
        out
    }
}

/// The input of block `b` of the region: the seed, permuted `b` times.
pub open spec fn region_input(b: int) -> Seq<int> {
    ft_input(seq![seed()], b as nat)
}

/// Row `r` of the region, zeros beyond it.
pub open spec fn region_row(r: int) -> Seq<int> {
    if r < 128 {
        perm_row(region_input(r / 32), (r % 32) as nat)
    } else {
        zeros(8)
    }
}

pub open spec fn skeleton_trace() -> Seq<Seq<int>> {
    Seq::new(256, |r: int| region_row(r))
}

/// What the region squeezes at its end.
pub open spec fn region_out() -> (int, int) {
    let s = perm(region_input(3));
    (s[3], s[2])
}

/// The rows of the region, and what it squeezes.
pub fn skeleton_build_trace() -> (r: (Trace, Challenge))
    ensures
        cells(r.0@) == skeleton_trace(),
        r.1@ == region_out(),
{
    let mut t: Trace = Vec::new();
    let mut input: [u64; 8] = [1, 0, 0, 0, 0, 0, 0, 0];
    assert(ints(input@) =~= seed());
    let mut last: [u64; 8] = [0; 8];
    for b in 0..SK_TB
        invariant
            ints(input@) == region_input(b as int),
            b > 0 ==> ints(last@) == perm(region_input(b - 1)),
            t.len() == 32 * b,
            forall|i: int| 0 <= i < 32 * b ==> ints((#[trigger] t@[i])@) == region_row(i),
    {
        let ghost before = t@;
        push_block(&mut t, input);
        proof {
            assert forall|i: int| 0 <= i < 32 * (b + 1) implies ints((#[trigger] t@[i])@)
                == region_row(i) by {
                if i < 32 * b {
                    assert(t@[i] == before[i]);
                } else {
                    assert(t@[before.len() + (i - before.len())] == t@[i]);
                    assert(i / 32 == b && i % 32 == i - 32 * b);
                }
            }
        }
        last = native_permute(input);
        input = last;
    }
    for r in SK_REGION..SK_HEIGHT
        invariant
            t.len() == r,
            r >= 128,
            forall|i: int| 0 <= i < r ==> ints((#[trigger] t@[i])@) == region_row(i),
    {
        t.push(zero_cells(W));
    }
    assert(cells(t@) =~= skeleton_trace());
    let out: Challenge = Challenge { c0: last[3], c1: last[2] };
    assert(out@ == region_out()) by {
        assert(ints(last@)[3] == last@[3] && ints(last@)[2] == last@[2]);
    }
    (t, out)
}

/// What the columns hold at row `r`.
proof fn lemma_region_env(t: Seq<Seq<int>>, pv: Seq<int>, r: int)
    requires
        0 <= r < 256,
    ensures
        ({
            let p = row_env(t, region_cols(), pv, r).per;
            &&& round_row(p, r % 32)
            &&& p[12] == range_z(r, 0, 128)
            &&& p[13] == range_z(r, 127, 128)
        }),
{
    let c = region_cols();
    let p = row_env(t, c, pv, r).per;
    assert forall|j: int| 0 <= j < ROUND_COLS implies #[trigger] p[j] == round_col(j, r % 32) by {
        assert(c[j] == block_cols()[j] && c[j].len() == 32);
    }
    assert(c[12].len() == 256 && c[13].len() == 256);
}

proof fn lemma_region_holds(env: Env, r: int, h: int)
    requires
        env.per[12] == 0 || env.per[12] == 1,
    ensures
        holds(region_polys(env), r, h) <==> {
            &&& r != h - 1 && env.per[12] == 1 ==> vanish(
                round_polys(lanes(env.cur, 0), lanes(env.nxt, 0), env.per),
            )
            &&& r == 0 ==> vanish(seed_polys(env.cur))
        },
{
    let p1 = round_polys(lanes(env.cur, 0), lanes(env.nxt, 0), env.per);
    let s1 = scaled(env.per[12], p1);
    let p2 = seed_polys(env.cur);
    lemma_switch(env.per[12], p1);
    lemma_holds_gated(Gate::Transition, s1, r, h);
    lemma_holds_gated(Gate::First, p2, r, h);
    lemma_holds_concat(gated(Gate::Transition, s1), gated(Gate::First, p2), r, h);
}

proof fn lemma_region_input(b: int)
    requires
        0 <= b,
    ensures
        region_input(b).len() == 8,
        b == 0 ==> region_input(b) == seed(),
    decreases b,
{
    if b > 0 {
        lemma_region_input(b - 1);
        lemma_perm_row_bound(region_input(b - 1), 31);
    }
}

/// A trace whose first eight columns are those of the region meets the constraints of the region.
proof fn lemma_region_complete(t: Seq<Seq<int>>, pv: Seq<int>, r: int)
    requires
        t.len() == 256,
        0 <= r < 256,
        forall|i: int, c: int|
            #![trigger t[i][c]]
            0 <= i < 256 && 0 <= c < 8 ==> t[i][c] == region_row(i)[c],
    ensures
        holds(region_polys(row_env(t, region_cols(), pv, r)), r, 256),
{
    let env = row_env(t, region_cols(), pv, r);
    lemma_region_env(t, pv, r);
    lemma_region_holds(env, r, 256);
    let (k, j) = (r / 32, r % 32);
    let (c, n) = (lanes(env.cur, 0), lanes(env.nxt, 0));
    if r < 128 && r != 255 {
        lemma_region_input(k);
        let input = region_input(k);
        lemma_perm_row_bound(input, j as nat);
        assert forall|i: int| 0 <= i < 8 implies #[trigger] c[i] == region_row(r)[i] by {
            assert(t[r][i] == region_row(r)[i]);
        }
        assert(c =~= perm_row(input, j as nat));
        if j < 31 {
            assert((r + 1) / 32 == k && (r + 1) % 32 == j + 1);
            lemma_perm_row_bound(input, (j + 1) as nat);
            assert forall|i: int| 0 <= i < 8 implies #[trigger] n[i] == region_row(r + 1)[i] by {
                assert(t[r + 1][i] == region_row(r + 1)[i]);
            }
            assert(n =~= perm_row(input, (j + 1) as nat));
            lemma_rounds_vanish(input, env.per, j as nat);
        } else {
            lemma_round_idle(c, n, env.per);
        }
    }
    if r == 0 {
        lemma_region_input(0);
        lemma_perm_step(seed(), 0);
        lemma_red_small(0);
        let s = seed_polys(env.cur);
        assert forall|i: int| 0 <= i < 8 implies red(#[trigger] s[i]) == 0 by {
            assert(t[0][i] == region_row(0)[i]);
        }
    }
}

/// The trace of the region meets the constraints exactly for what it squeezes.
pub proof fn law_skeleton_complete(pv: Seq<int>)
    ensures
        satisfied(|env: Env| skeleton_polys(env), skeleton_trace(), region_cols(), pv) <==> cong(
            region_out().0,
            pv[0],
        ) && cong(region_out().1, pv[1]),
{
    let t = skeleton_trace();
    let polys = |env: Env| skeleton_polys(env);
    let pc = region_cols();
    assert forall|r: int|
        #![trigger row_env(t, pc, pv, r)]
        0 <= r < 256 implies (holds(polys(row_env(t, pc, pv, r)), r, 256) <==> (r == 127 ==> cong(
        region_out().0,
        pv[0],
    ) && cong(region_out().1, pv[1]))) by {
        let env = row_env(t, pc, pv, r);
        lemma_region_complete(t, pv, r);
        lemma_region_env(t, pv, r);
        let q = squeeze_polys(env, env.per[13], 0);
        lemma_squeeze(env, env.per[13], 0);
        lemma_holds_gated(Gate::Always, q, r, 256);
        lemma_holds_concat(region_polys(env), gated(Gate::Always, q), r, 256);
        if r == 127 {
            assert(r / 32 == 3 && r % 32 == 31);
        }
    }
    if satisfied(polys, t, pc, pv) {
        assert(holds(polys(row_env(t, pc, pv, 127)), 127, 256));
    }
}

/// Columns of the carrier.
pub const CA_CARRY: usize = 8;

pub const CA_WIDTH: usize = 10;

/// The sponge region and a carrier: two cells that hold, on every row, what the region squeezes. The
/// public values are the carrier on the last row.
pub struct CarryBindAir;

/// The carrier never changes.
pub open spec fn held_polys(c: Seq<int>, n: Seq<int>) -> Seq<int> {
    seq![n[8] - c[8], n[9] - c[9]]
}

/// On the last row of the region the carrier is what is squeezed there.
pub open spec fn pinned_polys(c: Seq<int>, on: int) -> Seq<int> {
    seq![on * (c[8] - c[3]), on * (c[9] - c[2])]
}

/// The carrier is the public values.
pub open spec fn read_polys(env: Env) -> Seq<int> {
    seq![env.cur[8] - env.pis[0], env.cur[9] - env.pis[1]]
}

pub open spec fn carry_polys(env: Env) -> Seq<(Gate, int)> {
    region_polys(env) + gated(Gate::Transition, held_polys(env.cur, env.nxt)) + gated(
        Gate::Always,
        pinned_polys(env.cur, env.per[13]),
    ) + gated(Gate::Last, read_polys(env))
}

impl CarryBindAir {
    pub fn height(&self) -> (r: usize)
        ensures
            r == SK_HEIGHT,
    {
        SK_HEIGHT
    }

    pub fn width(&self) -> (r: usize)
        ensures
            r == CA_WIDTH,
    {
        CA_WIDTH
    }

    pub fn num_public_values(&self) -> (r: usize)
        ensures
            r == 2,
    {
        2
    }

    pub fn num_periodic_columns(&self) -> (r: usize)
        ensures
            r == SK_N_PERIODIC,
    {
        SK_N_PERIODIC
    }

    pub fn periodic(&self) -> (cols: Vec<Vec<u64>>)
        ensures
            cells(cols@) == region_cols(),
    {
        MonolithSkeletonAir.periodic()
    }

    pub fn eval(&self) -> (r: Vec<Constraint>)
        ensures
            forall|env: Env| #[trigger] denote(r@, env) == carry_polys(env),
    {
        let mut out: Vec<Constraint> = region_exprs();
        let on: Expr = per(SK_P_OUT);
        let held: Vec<Expr> = vec![nxt(8).minus(&cur(8)), nxt(9).minus(&cur(9))];
        let pinned: Vec<Expr> = vec![
            on.times(&cur(8).minus(&cur(3))),
            on.times(&cur(9).minus(&cur(2))),
        ];
        let read: Vec<Expr> = vec![cur(8).minus(&pis(0)), cur(9).minus(&pis(1))];
        proof {
            assert forall|env: Env| #[trigger] vals(held@, env) == held_polys(env.cur, env.nxt) by {
                assert(vals(held@, env) =~= held_polys(env.cur, env.nxt));
            }
            assert forall|env: Env| #[trigger]
                vals(pinned@, env) == pinned_polys(env.cur, env.per[13]) by {
                assert(vals(pinned@, env) =~= pinned_polys(env.cur, env.per[13]));
            }
            assert forall|env: Env| #[trigger] vals(read@, env) == read_polys(env) by {
                assert(vals(read@, env) =~= read_polys(env));
            }
        }
        emit_all(&mut out, Gate::Transition, &held);
        emit_all(&mut out, Gate::Always, &pinned);
        emit_all(&mut out, Gate::Last, &read);
        out
    }
}

pub open spec fn carry_trace() -> Seq<Seq<int>> {
    Seq::new(256, |r: int| region_row(r) + seq![region_out().0, region_out().1])
}

/// The rows of the region with the carrier, and what is carried.
pub fn carry_build_trace() -> (r: (Trace, Challenge))
    ensures
        cells(r.0@) == carry_trace(),
        r.1@ == region_out(),
{
    let (rows, out) = skeleton_build_trace();
    proof {
        assert(rows.len() == 256) by {
            assert(cells(rows@).len() == skeleton_trace().len());
        }
        assert forall|i: int| 0 <= i < 256 implies ints((#[trigger] rows@[i])@) == region_row(i) by {
            assert(cells(rows@)[i] == skeleton_trace()[i]);
        }
    }
    let mut t: Trace = Vec::new();
    for r in 0..SK_HEIGHT
        invariant
            rows.len() == 256,
            out@ == region_out(),
            forall|i: int| 0 <= i < 256 ==> ints((#[trigger] rows@[i])@) == region_row(i),
            t.len() == r,
            forall|i: int|
                0 <= i < r ==> ints((#[trigger] t@[i])@) == region_row(i) + seq![
                    region_out().0,
                    region_out().1,
                ],
    {
        let mut row: Vec<u64> = Vec::new();
        super::cells::extend(&mut row, &rows[r]);
        assert(ints(row@) =~= region_row(r as int));
        put_ext(&mut row, out);
        t.push(row);
    }
    assert(cells(t@) =~= carry_trace());
    (t, out)
}

proof fn lemma_carry_holds(env: Env, r: int, h: int)
    requires
        env.per[13] == 0 || env.per[13] == 1,
    ensures
        holds(carry_polys(env), r, h) <==> {
            &&& holds(region_polys(env), r, h)
            &&& r != h - 1 ==> cong(env.nxt[8], env.cur[8]) && cong(env.nxt[9], env.cur[9])
            &&& env.per[13] == 1 ==> cong(env.cur[8], env.cur[3]) && cong(env.cur[9], env.cur[2])
            &&& r == h - 1 ==> cong(env.cur[8], env.pis[0]) && cong(env.cur[9], env.pis[1])
        },
{
    let on = env.per[13];
    let (c, n) = (env.cur, env.nxt);
    let (p1, p2, p3) = (held_polys(c, n), pinned_polys(c, on), read_polys(env));
    let base = region_polys(env);
    let (g1, g2, g3) = (
        gated(Gate::Transition, p1),
        gated(Gate::Always, p2),
        gated(Gate::Last, p3),
    );
    lemma_holds_gated(Gate::Transition, p1, r, h);
    lemma_holds_gated(Gate::Always, p2, r, h);
    lemma_holds_gated(Gate::Last, p3, r, h);
    lemma_holds_concat(base, g1, r, h);
    lemma_holds_concat(base + g1, g2, r, h);
    lemma_holds_concat(base + g1 + g2, g3, r, h);
    lemma_cong_diff(n[8], c[8]);
    lemma_cong_diff(n[9], c[9]);
    lemma_one(on, c[8] - c[3]);
    lemma_one(on, c[9] - c[2]);
    lemma_cong_diff(c[8], c[3]);
    lemma_cong_diff(c[9], c[2]);
    lemma_cong_diff(c[8], env.pis[0]);
    lemma_cong_diff(c[9], env.pis[1]);
    if vanish(p1) {
        assert(red(p1[0]) == 0 && red(p1[1]) == 0);
    }
    if vanish(p2) {
        assert(red(p2[0]) == 0 && red(p2[1]) == 0);
    }
    if vanish(p3) {
        assert(red(p3[0]) == 0 && red(p3[1]) == 0);
    }
}

/// The carrier of a trace that meets the constraints is the same on all rows.
proof fn lemma_carrier_held(t: Seq<Seq<int>>, pv: Seq<int>, a: int, b: int)
    requires
        t.len() == 256,
        0 <= a <= b < 256,
        satisfied(|env: Env| carry_polys(env), t, region_cols(), pv),
    ensures
        cong(t[b][8], t[a][8]),
        cong(t[b][9], t[a][9]),
    decreases b - a,
{
    if a < b {
        lemma_carrier_held(t, pv, a, b - 1);
        let polys = |env: Env| carry_polys(env);
        let env = row_env(t, region_cols(), pv, b - 1);
        assert(holds(polys(env), b - 1, 256));
        lemma_region_env(t, pv, b - 1);
        lemma_carry_holds(env, b - 1, 256);
    }
}

/// Whatever trace meets the constraints, its public values are what its region squeezes.
pub proof fn law_carry_sound(t: Seq<Seq<int>>, pv: Seq<int>)
    requires
        t.len() == 256,
        satisfied(|env: Env| carry_polys(env), t, region_cols(), pv),
    ensures
        squeezed(t[127], pair(pv, 0)),
{
    let polys = |env: Env| carry_polys(env);
    let pc = region_cols();
    lemma_carrier_held(t, pv, 127, 255);
    let (e, l) = (row_env(t, pc, pv, 127), row_env(t, pc, pv, 255));
    assert(holds(polys(e), 127, 256));
    assert(holds(polys(l), 255, 256));
    lemma_region_env(t, pv, 127);
    lemma_region_env(t, pv, 255);
    lemma_carry_holds(e, 127, 256);
    lemma_carry_holds(l, 255, 256);
}

/// The trace with the carrier meets the constraints exactly for what the region squeezes.
pub proof fn law_carry_complete(pv: Seq<int>)
    ensures
        satisfied(|env: Env| carry_polys(env), carry_trace(), region_cols(), pv) <==> cong(
            region_out().0,
            pv[0],
        ) && cong(region_out().1, pv[1]),
{
    let t = carry_trace();
    let polys = |env: Env| carry_polys(env);
    let pc = region_cols();
    let out = region_out();
    assert forall|i: int, c: int|
        #![trigger t[i][c]]
        0 <= i < 256 && 0 <= c < 10 implies t[i][c] == (if c < 8 {
        region_row(i)[c]
    } else if c == 8 {
        out.0
    } else {
        out.1
    }) by {
        if i < 128 {
            lemma_region_input(i / 32);
            lemma_perm_row_bound(region_input(i / 32), (i % 32) as nat);
        }
        assert(region_row(i).len() == 8);
    }
    assert(t[127][3] == out.0 && t[127][2] == out.1) by {
        assert(127int / 32 == 3 && 127int % 32 == 31);
    }
    assert forall|r: int|
        #![trigger row_env(t, pc, pv, r)]
        0 <= r < 256 implies (holds(polys(row_env(t, pc, pv, r)), r, 256) <==> (r == 255 ==> cong(
        out.0,
        pv[0],
    ) && cong(out.1, pv[1]))) by {
        let env = row_env(t, pc, pv, r);
        lemma_region_complete(t, pv, r);
        lemma_region_env(t, pv, r);
        lemma_carry_holds(env, r, 256);
        assert(t[r][8] == out.0 && t[r][9] == out.1);
        if r != 255 {
            assert(t[r + 1][8] == out.0 && t[r + 1][9] == out.1);
        }
    }
    if satisfied(polys, t, pc, pv) {
        assert(holds(polys(row_env(t, pc, pv, 255)), 255, 256));
    }
}

} // verus!
