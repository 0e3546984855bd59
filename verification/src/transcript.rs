//! The duplex sponge over whole blocks: natively, and as a constraint system in which the rate
//! lanes of each block are free, the capacity carries, and each block counts what it absorbs.
use crate::expr::{
    cells, cst, cur, denote, emit_all, Constraint, Env, Expr, gated, Gate, holds,
    lemma_holds_concat, lemma_holds_gated, lemma_scaled, nxt, per, row_env, satisfied, scale_all,
    scaled, Trace, vals, vanish,
};
use crate::field::{cong, fadd, ints, lemma_cong_diff, lemma_red_red, lemma_red_small, red, P};
use crate::fri_merkle::{
    block_cols, canonical_cells, digest_exprs, digest_polys, lemma_block_env, lemma_steps_follow,
    periodic,
};
use crate::gadgets::{sponge_start, sponge_start_exprs, RATE};
use crate::merkle::take4;
use crate::poseidon2::{
    lanes, lemma_block, lemma_perm_row_bound, lemma_perm_step, lemma_round_idle,
    lemma_rounds_vanish, native_permute, native_steps, perm, perm_row, red_seq, round_exprs,
    round_polys, round_row, step_z, W,
};
use vstd::prelude::*;

verus! {

/// The blocks of rows that permute `inputs`, one after the other.
pub open spec fn chain_trace(inputs: Seq<Seq<int>>) -> Seq<Seq<int>> {
    Seq::new(32 * inputs.len(), |r: int| perm_row(inputs[r / 32], (r % 32) as nat))
}

/// The integers of a list of states.
pub open spec fn states(v: Seq<[u64; 8]>) -> Seq<Seq<int>> {
    Seq::new(v.len(), |i: int| ints(v[i]@))
}

/// The eight lanes of a state as a row.
pub fn state_row(s: &[u64; 8]) -> (r: Vec<u64>)
    ensures
        ints(r@) == ints(s@),
{
    let r: Vec<u64> = vec![s[0], s[1], s[2], s[3], s[4], s[5], s[6], s[7]];
    assert(ints(r@) =~= ints(s@));
    r
}

/// Appends the block of rows that permutes `input`.
pub fn push_block(t: &mut Trace, input: [u64; 8])
    ensures
        final(t).len() == old(t).len() + 32,
        forall|i: int| 0 <= i < old(t).len() ==> #[trigger] final(t)@[i] == old(t)@[i],
        forall|r: int|
            #![trigger final(t)@[old(t).len() + r]]
            0 <= r < 32 ==> ints(final(t)@[old(t).len() + r]@) == perm_row(
                ints(input@),
                r as nat,
            ),
{
    let steps: Vec<[u64; 8]> = native_steps(input);
    let ghost n = t.len() as int;
    for r in 0..32
        invariant
            steps.len() == 32,
            n == old(t).len(),
            t.len() == n + r,
            forall|i: int| 0 <= i < n ==> #[trigger] t@[i] == old(t)@[i],
            forall|j: int|
                0 <= j < 32 ==> ints((#[trigger] steps@[j])@) == perm_row(ints(input@), j as nat),
            forall|j: int|
                #![trigger t@[n + j]]
                0 <= j < r ==> ints(t@[n + j]@) == perm_row(ints(input@), j as nat),
    {
        t.push(state_row(&steps[r]));
    }
}

/// The trace of a chain of blocks.
pub fn chain_rows(inputs: &Vec<[u64; 8]>) -> (t: Trace)
    ensures
        cells(t@) == chain_trace(states(inputs@)),
{
    let mut t: Trace = Vec::new();
    let n: usize = inputs.len();
    for b in 0..n
        invariant
            n == inputs.len(),
            t.len() == 32 * b,
            forall|i: int|
                0 <= i < 32 * b ==> ints((#[trigger] t@[i])@) == chain_trace(states(inputs@))[i],
    {
        let ghost before = t@;
        push_block(&mut t, inputs[b]);
        proof {
            assert forall|i: int|
                0 <= i < 32 * (b + 1) implies ints((#[trigger] t@[i])@) == chain_trace(
                states(inputs@),
            )[i] by {
                if i < 32 * b {
                    assert(t@[i] == before[i]);
                } else {
                    let r = i - 32 * b;
                    assert(t@[before.len() + r] == t@[i]);
                    assert(i / 32 == b && i % 32 == r);
                }
            }
        }
    }
    assert(cells(t@) =~= chain_trace(states(inputs@)));
    t
}

/// A block of absorbed elements.
pub type RateBlock = [u64; 4];

/// The absorbed blocks as integers.
pub open spec fn blocks_z(blocks: Seq<RateBlock>) -> Seq<Seq<int>> {
    Seq::new(blocks.len(), |i: int| ints(blocks[i]@))
}

/// The state that goes into the permutation of block `j`: its elements in the rate lanes, the
/// capacity of the block before (zero for the first), and the number of absorbed elements added to
/// the first capacity lane.
pub open spec fn sponge_input(blocks: Seq<Seq<int>>, j: nat) -> Seq<int>
    decreases j,
{
    let cap = if j == 0 {
        seq![0int, 0, 0, 0]
    } else {
        perm(sponge_input(blocks, (j - 1) as nat)).subrange(4, 8)
    };
    blocks[j as int] + seq![red(cap[0] + 4), cap[1], cap[2], cap[3]]
}

/// The rate lanes after all blocks; zeros where there are none.
pub open spec fn sponge_output(blocks: Seq<Seq<int>>) -> Seq<int> {
    if blocks.len() == 0 {
        seq![0int, 0, 0, 0]
    } else {
        take4(perm(sponge_input(blocks, (blocks.len() - 1) as nat)))
    }
}

/// The next input of the sponge: rate lanes from `blk`, capacity lanes from `prev`.
fn absorb(blk: &RateBlock, prev: &[u64; 8]) -> (s: [u64; 8])
    ensures
        ints(s@) == ints(blk@) + seq![
            red(prev@[4] + 4),
            prev@[5] as int,
            prev@[6] as int,
            prev@[7] as int,
        ],
{
    let s: [u64; 8] = [
        blk[0],
        blk[1],
        blk[2],
        blk[3],
        fadd(prev[4], 4),
        prev[5],
        prev[6],
        prev[7],
    ];
    assert(ints(s@) =~= ints(blk@) + seq![
        red(prev@[4] + 4),
        prev@[5] as int,
        prev@[6] as int,
        prev@[7] as int,
    ]);
    s
}

/// The states that go into the permutations of the sponge.
fn sponge_inputs(blocks: &[RateBlock]) -> (r: (Vec<[u64; 8]>, [u64; 8]))
    ensures
        r.0.len() == blocks@.len(),
        forall|j: int|
            0 <= j < blocks@.len() ==> ints((#[trigger] r.0@[j])@) == sponge_input(
                blocks_z(blocks@),
                j as nat,
            ),
        take4(ints(r.1@)) == sponge_output(blocks_z(blocks@)),
{
    let mut inputs: Vec<[u64; 8]> = Vec::new();
    let mut prev: [u64; 8] = [0; 8];
    let n: usize = blocks.len();
    let ghost bz = blocks_z(blocks@);
    assert(take4(ints(prev@)) =~= seq![0int, 0, 0, 0]);
    for j in 0..n
        invariant
            n == blocks@.len(),
            bz == blocks_z(blocks@),
            inputs.len() == j,
            forall|i: int|
                0 <= i < j ==> ints((#[trigger] inputs@[i])@) == sponge_input(bz, i as nat),
            j == 0 ==> prev@ == seq![0u64, 0, 0, 0, 0, 0, 0, 0],
            j > 0 ==> ints(prev@) == perm(sponge_input(bz, (j - 1) as nat)),
    {
        let s: [u64; 8] = absorb(&blocks[j], &prev);
        proof {
            let z = ints(prev@);
            if j > 0 {
                let cap = perm(sponge_input(bz, (j - 1) as nat)).subrange(4, 8);
                assert(cap[0] == z[4] && cap[1] == z[5] && cap[2] == z[6] && cap[3] == z[7]);
            }
            assert(bz[j as int] == ints(blocks@[j as int]@));
            assert(ints(s@) =~= sponge_input(bz, j as nat));
        }
        inputs.push(s);
        prev = native_permute(s);
    }
    assert(n == 0 ==> take4(ints(prev@)) =~= seq![0int, 0, 0, 0]);
    (inputs, prev)
}

/// The rate lanes that a duplex sponge holds after absorbing `blocks`.
pub fn native_sponge(blocks: &[RateBlock]) -> (r: RateBlock)
    ensures
        ints(r@) == sponge_output(blocks_z(blocks@)),
{
    let (_inputs, last) = sponge_inputs(blocks);
    crate::merkle::first_half(last)
}

/// A sponge of `blocks` blocks whose last rate lanes are public.
pub struct SpongeAir {
    pub blocks: usize,
}

/// From block to block the capacity carries, with the number of absorbed elements added to its
/// first lane.
pub open spec fn carry_polys(c: Seq<int>, n: Seq<int>) -> Seq<int> {
    seq![n[4] - (c[4] + 4), n[5] - c[5], n[6] - c[6], n[7] - c[7]]
}

pub fn carry_exprs() -> (r: Vec<Expr>)
    ensures
        r.len() == 4,
        forall|env: Env| #[trigger] vals(r@, env) == carry_polys(env.cur, env.nxt),
{
    let mut r: Vec<Expr> = Vec::new();
    r.push(nxt(4).minus(&cur(4).plus(&cst(4))));
    r.push(nxt(5).minus(&cur(5)));
    r.push(nxt(6).minus(&cur(6)));
    r.push(nxt(7).minus(&cur(7)));
    proof {
        assert forall|env: Env| #[trigger] vals(r@, env) == carry_polys(env.cur, env.nxt) by {
            assert(vals(r@, env) =~= carry_polys(env.cur, env.nxt));
        }
    }
    r
}

/// The rounds, the start and the links of a sponge of whole blocks.
pub open spec fn absorbing_polys(env: Env) -> Seq<(Gate, int)> {
    gated(Gate::Transition, round_polys(lanes(env.cur, 0), lanes(env.nxt, 0), env.per)) + gated(
        Gate::First,
        sponge_start(env.cur, 4),
    ) + gated(Gate::Transition, scaled(env.per[11], carry_polys(env.cur, env.nxt)))
}

/// The constraints of a sponge of whole blocks, without its outputs.
pub fn absorbing_exprs() -> (out: Vec<Constraint>)
    ensures
        forall|env: Env| #[trigger] denote(out@, env) == absorbing_polys(env),
{
    let mut out: Vec<Constraint> = Vec::new();
    let rounds: Vec<Expr> = round_exprs(0);
    emit_all(&mut out, Gate::Transition, &rounds);
    let start: Vec<Expr> = sponge_start_exprs(&cst(4));
    emit_all(&mut out, Gate::First, &start);
    let links: Vec<Expr> = scale_all(&per(11), &carry_exprs());
    emit_all(&mut out, Gate::Transition, &links);
    proof {
        assert forall|env: Env| #[trigger] denote(out@, env) == absorbing_polys(env) by {
            assert(denote(out@, env) =~= absorbing_polys(env));
        }
    }
    out
}

pub open spec fn sponge_polys(env: Env) -> Seq<(Gate, int)> {
    absorbing_polys(env) + gated(Gate::Last, digest_polys(env, 0))
}

impl SpongeAir {
    pub fn width(&self) -> (r: usize)
        ensures
            r == W,
    {
        W
    }

    pub fn num_public_values(&self) -> (r: usize)
        ensures
            r == RATE,
    {
        RATE
    }

    pub fn num_periodic_columns(&self) -> (r: usize)
        ensures
            r == 12,
    {
        12
    }

    pub fn periodic_columns(&self) -> (cols: Vec<Vec<u64>>)
        ensures
            cells(cols@) == block_cols(),
    {
        periodic()
    }

    pub fn eval(&self) -> (r: Vec<Constraint>)
        ensures
            forall|env: Env| #[trigger] denote(r@, env) == sponge_polys(env),
    {
        let mut out: Vec<Constraint> = absorbing_exprs();
        let squeeze: Vec<Expr> = digest_exprs(0);
        emit_all(&mut out, Gate::Last, &squeeze);
        out
    }
}

/// The trace of a sponge.
pub open spec fn sponge_trace(blocks: Seq<Seq<int>>) -> Seq<Seq<int>> {
    chain_trace(Seq::new(blocks.len(), |j: int| sponge_input(blocks, j as nat)))
}

/// Fills the trace of a sponge.
pub fn build_trace(blocks: &[RateBlock]) -> (t: Trace)
    ensures
        cells(t@) == sponge_trace(blocks_z(blocks@)),
{
    let (inputs, _last) = sponge_inputs(blocks);
    assert(states(inputs@) =~= Seq::new(
        blocks_z(blocks@).len(),
        |j: int| sponge_input(blocks_z(blocks@), j as nat),
    ));
    chain_rows(&inputs)
}

/// The constraints of a sponge at a row, group by group.
pub proof fn lemma_absorbing_holds(env: Env, r: int, h: int)
    ensures
        holds(absorbing_polys(env), r, h) <==> {
            &&& r != h - 1 ==> vanish(round_polys(lanes(env.cur, 0), lanes(env.nxt, 0), env.per))
            &&& r == 0 ==> vanish(sponge_start(env.cur, 4))
            &&& r != h - 1 ==> vanish(scaled(env.per[11], carry_polys(env.cur, env.nxt)))
        },
{
    let rounds = round_polys(lanes(env.cur, 0), lanes(env.nxt, 0), env.per);
    let g1 = gated(Gate::Transition, rounds);
    let g2 = gated(Gate::First, sponge_start(env.cur, 4));
    let link = scaled(env.per[11], carry_polys(env.cur, env.nxt));
    let g3 = gated(Gate::Transition, link);
    lemma_holds_gated(Gate::Transition, rounds, r, h);
    lemma_holds_gated(Gate::First, sponge_start(env.cur, 4), r, h);
    lemma_holds_gated(Gate::Transition, link, r, h);
    lemma_holds_concat(g1, g2, r, h);
    lemma_holds_concat(g1 + g2, g3, r, h);
}

proof fn lemma_sponge_holds(env: Env, r: int, h: int)
    ensures
        holds(sponge_polys(env), r, h) <==> {
            &&& holds(absorbing_polys(env), r, h)
            &&& r == h - 1 ==> vanish(digest_polys(env, 0))
        },
{
    lemma_holds_gated(Gate::Last, digest_polys(env, 0), r, h);
    lemma_holds_concat(absorbing_polys(env), gated(Gate::Last, digest_polys(env, 0)), r, h);
}

/// Every block has as many elements as the rate.
pub open spec fn blocks_ok(blocks: Seq<Seq<int>>) -> bool {
    forall|i: int| 0 <= i < blocks.len() ==> (#[trigger] blocks[i]).len() == 4
}

pub proof fn lemma_sponge_input_len(blocks: Seq<Seq<int>>, j: nat)
    requires
        j < blocks.len(),
        blocks_ok(blocks),
    ensures
        sponge_input(blocks, j).len() == 8,
    decreases j,
{
    assert(blocks[j as int].len() == 4);
}

/// The rows of the trace of a sponge meet its constraints.
pub proof fn lemma_absorbing_complete(blocks: Seq<Seq<int>>, pcols: Seq<Seq<int>>, pv: Seq<int>, r: int)
    requires
        blocks_ok(blocks),
        0 <= r < 32 * blocks.len(),
        round_row(row_env(sponge_trace(blocks), pcols, pv, r).per, r % 32),
        row_env(sponge_trace(blocks), pcols, pv, r).per[11] == crate::cols::last_z(r),
    ensures
        holds(
            absorbing_polys(row_env(sponge_trace(blocks), pcols, pv, r)),
            r,
            32 * blocks.len() as int,
        ),
{
    let t = sponge_trace(blocks);
    let h = 32 * blocks.len() as int;
    let env = row_env(t, pcols, pv, r);
    let (k, j) = (r / 32, r % 32);
    let input = sponge_input(blocks, k as nat);
    lemma_absorbing_holds(env, r, h);
    lemma_sponge_input_len(blocks, k as nat);
    lemma_perm_row_bound(input, j as nat);
    let (c, n) = (lanes(env.cur, 0), lanes(env.nxt, 0));
    assert(env.cur == perm_row(input, j as nat));
    assert(c =~= env.cur);
    if r != h - 1 {
        assert(env.nxt == t[r + 1]);
        if j < 31 {
            assert((r + 1) / 32 == k && (r + 1) % 32 == j + 1);
            lemma_perm_row_bound(input, (j + 1) as nat);
            assert(n =~= env.nxt);
            lemma_rounds_vanish(input, env.per, j as nat);
            lemma_scaled(env.per[11], carry_polys(env.cur, env.nxt));
        } else {
            assert((r + 1) / 32 == k + 1 && (r + 1) % 32 == 0);
            lemma_round_idle(c, n, env.per);
            assert(vanish(round_polys(c, n, env.per)));
            let next = sponge_input(blocks, (k + 1) as nat);
            lemma_sponge_input_len(blocks, (k + 1) as nat);
            lemma_perm_step(next, 0);
            assert(env.nxt == next);
            let cap = perm(input).subrange(4, 8);
            assert(blocks[k + 1].len() == 4);
            assert(env.nxt[4] == red(cap[0] + 4) && env.nxt[5] == cap[1] && env.nxt[6] == cap[2]
                && env.nxt[7] == cap[3]);
            lemma_red_red(cap[0] + 4);
            lemma_cong_diff(env.nxt[4], cap[0] + 4);
            let link = carry_polys(env.cur, env.nxt);
            lemma_scaled(env.per[11], link);
            assert(red(link[0]) == 0);
            assert(link[1] == 0 && link[2] == 0 && link[3] == 0);
        }
    }
    if r == 0 {
        lemma_perm_step(input, 0);
        assert(blocks[0].len() == 4);
        lemma_red_small(4);
        let s = sponge_start(env.cur, 4);
        assert(s[0] == 0 && s[1] == 0 && s[2] == 0 && s[3] == 0);
    }
}

/// The trace of a sponge meets the constraints exactly for the rate lanes that it ends in.
pub proof fn law_sponge_complete(blocks: Seq<Seq<int>>, out: Seq<int>)
    requires
        blocks.len() > 0,
        blocks_ok(blocks),
        out.len() == 4,
    ensures
        satisfied(|env: Env| sponge_polys(env), sponge_trace(blocks), block_cols(), out)
            <==> forall|i: int|
            0 <= i < 4 ==> cong(#[trigger] out[i], sponge_output(blocks)[i]),
{
    let t = sponge_trace(blocks);
    let h = 32 * blocks.len() as int;
    let polys = |env: Env| sponge_polys(env);
    let last = row_env(t, block_cols(), out, h - 1);
    let input = sponge_input(blocks, (blocks.len() - 1) as nat);
    assert(last.cur == perm(input)) by {
        assert((h - 1) / 32 == blocks.len() - 1 && (h - 1) % 32 == 31);
    }
    assert forall|i: int| 0 <= i < 4 implies (red(#[trigger] digest_polys(last, 0)[i]) == 0 <==> cong(
        out[i],
        sponge_output(blocks)[i],
    )) by {
        lemma_cong_diff(last.cur[i], out[i]);
    }
    if forall|i: int| 0 <= i < 4 ==> cong(#[trigger] out[i], sponge_output(blocks)[i]) {
        assert forall|r: int|
            #![trigger row_env(t, block_cols(), out, r)]
            0 <= r < t.len() implies holds(
            polys(row_env(t, block_cols(), out, r)),
            r,
            t.len() as int,
        ) by {
            let env = row_env(t, block_cols(), out, r);
            lemma_block_env(t, out, r);
            lemma_absorbing_complete(blocks, block_cols(), out, r);
            lemma_sponge_holds(env, r, h);
        }
    }
    if satisfied(polys, t, block_cols(), out) {
        assert(holds(polys(last), h - 1, t.len() as int));
        lemma_sponge_holds(last, h - 1, h);
        assert forall|i: int| 0 <= i < 4 implies cong(#[trigger] out[i], sponge_output(blocks)[i]) by {
            assert(red(digest_polys(last, 0)[i]) == 0);
        }
    }
}

/// The blocks that a trace of `m` blocks absorbs: the rate lanes at the heads of its blocks.
pub open spec fn trace_blocks(t: Seq<Seq<int>>, m: nat) -> Seq<Seq<int>> {
    Seq::new(m, |j: int| Seq::new(4, |k: int| t[32 * j][k]))
}

/// A trace whose rows meet the constraints of a sponge is the trace of the sponge that absorbs the
/// rate lanes at the heads of its blocks.
pub proof fn lemma_absorbing_sound(
    t: Seq<Seq<int>>,
    pcols: Seq<Seq<int>>,
    pv: Seq<int>,
    m: nat,
    k: nat,
)
    requires
        t.len() == 32 * m,
        k < m,
        canonical_cells(t, 8),
        forall|r: int|
            #![trigger row_env(t, pcols, pv, r)]
            0 <= r < t.len() ==> holds(
                absorbing_polys(row_env(t, pcols, pv, r)),
                r,
                t.len() as int,
            ) && round_row(row_env(t, pcols, pv, r).per, r % 32) && row_env(t, pcols, pv, r).per[11]
                == crate::cols::last_z(r),
    ensures
        lanes(t[32 * k as int], 0) == sponge_input(trace_blocks(t, m), k),
        lanes(t[(32 * k + 31) as int], 0) == perm(sponge_input(trace_blocks(t, m), k)),
    decreases k,
{
    let h = t.len() as int;
    let blocks = trace_blocks(t, m);
    let head = 32 * k as int;
    let input = sponge_input(blocks, k);
    assert(blocks_ok(blocks));
    lemma_sponge_input_len(blocks, k);
    if k == 0 {
        let env = row_env(t, pcols, pv, 0);
        lemma_absorbing_holds(env, 0, h);
        let s = sponge_start(env.cur, 4);
        assert(red(s[0]) == 0 && red(s[1]) == 0 && red(s[2]) == 0 && red(s[3]) == 0);
        assert(0 <= t[0][4] < P && 0 <= t[0][5] < P && 0 <= t[0][6] < P && 0 <= t[0][7] < P);
        lemma_red_small(4);
        lemma_cong_diff(t[0][4], 4);
        lemma_red_small(t[0][4]);
        lemma_red_small(t[0][5]);
        lemma_red_small(t[0][6]);
        lemma_red_small(t[0][7]);
    } else {
        let j = (k - 1) as nat;
        lemma_absorbing_sound(t, pcols, pv, m, j);
        let e = row_env(t, pcols, pv, head - 1);
        lemma_absorbing_holds(e, head - 1, h);
        assert((head - 1) % 32 == 31);
        let link = carry_polys(e.cur, e.nxt);
        lemma_scaled(e.per[11], link);
        assert(red(link[0]) == 0 && red(link[1]) == 0 && red(link[2]) == 0 && red(link[3]) == 0);
        let before = sponge_input(blocks, j);
        lemma_sponge_input_len(blocks, j);
        lemma_perm_row_bound(before, 31);
        let cap = perm(before).subrange(4, 8);
        assert(32 * j + 31 == head - 1);
        assert(lanes(t[head - 1], 0) == perm(before));
        assert forall|i: int| 0 <= i < 4 implies #[trigger] cap[i] == t[head - 1][4 + i] by {
            assert(lanes(t[head - 1], 0)[4 + i] == t[head - 1][0 + (4 + i)]);
        }
        assert(cap[0] == t[head - 1][4] && cap[1] == t[head - 1][5] && cap[2] == t[head - 1][6]
            && cap[3] == t[head - 1][7]);
        assert(0 <= t[head][4] < P && 0 <= t[head][5] < P && 0 <= t[head][6] < P && 0 <= t[head][7]
            < P);
        assert(0 <= t[head - 1][5] < P && 0 <= t[head - 1][6] < P && 0 <= t[head - 1][7] < P);
        lemma_cong_diff(t[head][4], cap[0] + 4);
        lemma_red_small(t[head][4]);
        lemma_cong_diff(t[head][5], cap[1]);
        lemma_cong_diff(t[head][6], cap[2]);
        lemma_cong_diff(t[head][7], cap[3]);
        lemma_red_small(t[head][5]);
        lemma_red_small(t[head][6]);
        lemma_red_small(t[head][7]);
        lemma_red_small(cap[1]);
        lemma_red_small(cap[2]);
        lemma_red_small(cap[3]);
    }
    assert(lanes(t[head], 0) =~= input) by {
        assert forall|i: int| 0 <= i < 8 implies lanes(t[head], 0)[i] == input[i] by {
            if i < 4 {
                assert(blocks[k as int][i] == t[head][i]);
            }
        }
    }
    assert forall|j: int|
        #![trigger t[head + j]]
        1 <= j <= 31 implies lanes(t[head + j], 0) == red_seq(
        step_z(j - 1, lanes(t[head + j - 1], 0)),
    ) by {
        let r = head + j - 1;
        let e = row_env(t, pcols, pv, r);
        lemma_absorbing_holds(e, r, h);
        assert(r % 32 == j - 1);
        lemma_steps_follow(t, e, r, 8);
    }
    lemma_block(t, 0, head, 31);
}

/// Whatever trace meets the constraints, its public values are what the sponge over its rate lanes
/// squeezes.
pub proof fn law_sponge_sound(t: Seq<Seq<int>>, out: Seq<int>, m: nat)
    requires
        m > 0,
        t.len() == 32 * m,
        out.len() == 4,
        canonical_cells(t, 8),
        satisfied(|env: Env| sponge_polys(env), t, block_cols(), out),
    ensures
        forall|i: int|
            0 <= i < 4 ==> cong(#[trigger] out[i], sponge_output(trace_blocks(t, m))[i]),
{
    let polys = |env: Env| sponge_polys(env);
    let h = t.len() as int;
    assert forall|r: int|
        #![trigger row_env(t, block_cols(), out, r)]
        0 <= r < t.len() implies holds(
        absorbing_polys(row_env(t, block_cols(), out, r)),
        r,
        t.len() as int,
    ) && round_row(row_env(t, block_cols(), out, r).per, r % 32) && row_env(
        t,
        block_cols(),
        out,
        r,
    ).per[11] == crate::cols::last_z(r) by {
        let env = row_env(t, block_cols(), out, r);
        assert(holds(polys(env), r, h));
        lemma_sponge_holds(env, r, h);
        lemma_block_env(t, out, r);
    }
    lemma_absorbing_sound(t, block_cols(), out, m, (m - 1) as nat);
    let env = row_env(t, block_cols(), out, h - 1);
    assert(holds(polys(env), h - 1, h));
    lemma_sponge_holds(env, h - 1, h);
    assert forall|i: int| 0 <= i < 4 implies cong(
        #[trigger] out[i],
        sponge_output(trace_blocks(t, m))[i],
    ) by {
        assert(red(digest_polys(env, 0)[i]) == 0);
        lemma_cong_diff(env.cur[i], out[i]);
        assert(lanes(t[h - 1], 0)[i] == t[h - 1][0 + i]);
    }
}

} // verus!
