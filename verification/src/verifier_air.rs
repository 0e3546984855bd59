//! The entry and the exit of a verifier as constraint systems: the transcript that squeezes the
//! combination challenge and the out-of-domain point, and the check of the constraints there.
use crate::challenger::{
    after_ext, fresh, observed, observed_all, ready, sampled_ext, absorbed, Challenger, Duplex,
};
use crate::cols::{last_z, range_col, range_z};
use crate::expr::{
    cells, cur, cur_ext, denote, emit, emit_all, gated, holds, lemma_holds_concat,
    lemma_holds_gated, pair, per, pis, row_env, satisfied, vals, vanish, Constraint, Env, Expr,
    ExtExpr, Gate, Trace,
};
use crate::field::{
    econg, ints, lemma_cong_diff, lemma_red_small, red, zadd, zmul, zsub, Challenge, P,
};
use crate::fri_merkle::{block_cols, canonical_cells, periodic};
use crate::monolith::sponge::{
    lemma_squeeze, squeeze_exprs, squeeze_polys, squeezed, state_after,
};
use crate::poseidon2::{lanes, perm, round_col, round_row, ROUND_COLS, W};
use crate::transcript::{
    absorbing_exprs, absorbing_polys, blocks_ok, blocks_z, build_trace, lemma_absorbing_complete,
    lemma_absorbing_sound, sponge_input, sponge_output, sponge_trace, trace_blocks, RateBlock,
};
use vstd::prelude::*;

verus! {

// Challenges.

/// The elements of blocks, one behind the other.
pub open spec fn laid_out(blocks: Seq<Seq<int>>) -> Seq<int>
    decreases blocks.len(),
{
    if blocks.len() == 0 {
        seq![]
    } else {
        laid_out(blocks.drop_last()) + blocks.last()
    }
}

/// Every block has four canonical elements.
pub open spec fn blocks_canonical(blocks: Seq<Seq<int>>) -> bool {
    &&& blocks_ok(blocks)
    &&& forall|i: int, k: int|
        #![trigger blocks[i][k]]
        0 <= i < blocks.len() && 0 <= k < 4 ==> 0 <= blocks[i][k] < P
}

/// Taking in a list behind another is taking in both.
proof fn lemma_observed_concat(d: Duplex, a: Seq<int>, b: Seq<int>)
    ensures
        observed_all(d, a + b) == observed_all(observed_all(d, a), b),
    decreases b.len(),
{
    if b.len() == 0 {
        assert(a + b =~= a);
    } else {
        lemma_observed_concat(d, a, b.drop_last());
        assert((a + b).drop_last() =~= a + b.drop_last());
    }
}

/// A whole block goes into the rate lanes, and its number of elements is added to the first capacity
/// lane.
proof fn lemma_observed_block(d: Duplex, v: Seq<int>)
    requires
        d.state.len() == 8,
        d.input.len() == 0,
        v.len() == 4,
        forall|k: int| 0 <= k < 4 ==> 0 <= #[trigger] v[k] < P,
    ensures
        ({
            let e = observed_all(d, v);
            &&& e.state == perm(v + seq![red(d.state[4] + 4), d.state[5], d.state[6], d.state[7]])
            &&& e.input.len() == 0
            &&& e.output == e.state.take(4)
        }),
{
    reveal_with_fuel(observed_all, 5);
    let (v3, v2, v1, v0) = (
        v.drop_last(),
        v.drop_last().drop_last(),
        v.drop_last().drop_last().drop_last(),
        v.drop_last().drop_last().drop_last().drop_last(),
    );
    assert(v3.last() == v[2] && v2.last() == v[1] && v1.last() == v[0] && v0.len() == 0);
    assert forall|k: int| 0 <= k < 4 implies red(#[trigger] v[k]) == v[k] by {
        lemma_red_small(v[k]);
    }
    assert(red(v[0]) == v[0] && red(v[1]) == v[1] && red(v[2]) == v[2] && red(v[3]) == v[3]);
    let d1 = observed(d, v[0]);
    let d2 = observed(d1, v[1]);
    let d3 = observed(d2, v[2]);
    assert(d1.input =~= seq![v[0]]);
    assert(d2.input =~= seq![v[0], v[1]]);
    assert(d3.input =~= seq![v[0], v[1], v[2]]);
    let e = Duplex { output: seq![], input: d3.input.push(v[3]), ..d3 };
    assert(e.input =~= v);
    assert(e.state == d.state);
    assert(absorbed(e) =~= v + seq![red(d.state[4] + 4), d.state[5], d.state[6], d.state[7]]);
    assert(observed_all(d, v0) == d);
}

/// What a sponge holds behind whole blocks.
pub open spec fn behind_blocks(d: Duplex, blocks: Seq<Seq<int>>) -> bool {
    &&& d.state == perm(sponge_input(blocks, (blocks.len() - 1) as nat))
    &&& d.input.len() == 0
    &&& d.output == d.state.take(4)
}

proof fn lemma_prefix_input(blocks: Seq<Seq<int>>, j: nat)
    requires
        j + 1 < blocks.len(),
    ensures
        sponge_input(blocks.drop_last(), j) == sponge_input(blocks, j),
    decreases j,
{
    if j > 0 {
        lemma_prefix_input(blocks, (j - 1) as nat);
    }
}

/// A further block behind a sponge that holds blocks, whatever is left to squeeze.
proof fn lemma_next_block(d: Duplex, blocks: Seq<Seq<int>>)
    requires
        blocks.len() > 1,
        blocks_canonical(blocks),
        d.state == perm(sponge_input(blocks.drop_last(), (blocks.len() - 2) as nat)),
        d.input.len() == 0,
    ensures
        behind_blocks(observed_all(d, blocks.last()), blocks),
{
    let n = blocks.len();
    let v = blocks.last();
    lemma_prefix_input(blocks, (n - 2) as nat);
    crate::transcript::lemma_sponge_input_len(blocks, (n - 2) as nat);
    crate::poseidon2::lemma_perm_row_bound(sponge_input(blocks, (n - 2) as nat), 31);
    assert forall|k: int| 0 <= k < 4 implies 0 <= #[trigger] v[k] < P by {
        assert(0 <= blocks[n - 1][k] < P);
    }
    lemma_observed_block(d, v);
    let cap = perm(sponge_input(blocks, (n - 2) as nat)).subrange(4, 8);
    assert(cap[0] == d.state[4] && cap[1] == d.state[5] && cap[2] == d.state[6] && cap[3]
        == d.state[7]);
    assert(v + seq![red(d.state[4] + 4), d.state[5], d.state[6], d.state[7]] =~= sponge_input(
        blocks,
        (n - 1) as nat,
    ));
}

proof fn lemma_first_block(blocks: Seq<Seq<int>>)
    requires
        blocks.len() == 1,
        blocks_canonical(blocks),
    ensures
        behind_blocks(observed_all(fresh(), blocks[0]), blocks),
{
    let v = blocks[0];
    assert forall|k: int| 0 <= k < 4 implies 0 <= #[trigger] v[k] < P by {
        assert(0 <= blocks[0][k] < P);
    }
    lemma_observed_block(fresh(), v);
    assert(v + seq![red(4int), 0int, 0, 0] =~= sponge_input(blocks, 0));
}

proof fn lemma_behind(blocks: Seq<Seq<int>>)
    requires
        blocks.len() > 0,
        blocks_canonical(blocks),
    ensures
        behind_blocks(observed_all(fresh(), laid_out(blocks)), blocks),
    decreases blocks.len(),
{
    let front = blocks.drop_last();
    lemma_observed_concat(fresh(), laid_out(front), blocks.last());
    if blocks.len() == 1 {
        assert(laid_out(front) =~= seq![]);
        assert(observed_all(fresh(), laid_out(front)) == fresh());
        lemma_first_block(blocks);
    } else {
        assert forall|i: int, k: int|
            #![trigger front[i][k]]
            0 <= i < front.len() && 0 <= k < 4 implies 0 <= front[i][k] < P by {
            assert(0 <= blocks[i][k] < P);
        }
        assert(blocks_ok(front));
        lemma_behind(front);
        lemma_next_block(observed_all(fresh(), laid_out(front)), blocks);
    }
}

/// A challenge behind whole blocks is the last two rate lanes, from the back, and drawing it leaves the
/// state as it is.
proof fn lemma_challenge(d: Duplex, blocks: Seq<Seq<int>>)
    requires
        blocks.len() > 0,
        blocks_ok(blocks),
        behind_blocks(d, blocks),
    ensures
        sampled_ext(d) == (sponge_output(blocks)[3], sponge_output(blocks)[2]),
        after_ext(d).state == d.state,
        after_ext(d).input.len() == 0,
{
    crate::transcript::lemma_sponge_input_len(blocks, (blocks.len() - 1) as nat);
    crate::poseidon2::lemma_perm_row_bound(sponge_input(blocks, (blocks.len() - 1) as nat), 31);
    assert(ready(d) == d);
    let e = crate::challenger::after_sample(d);
    assert(e.output =~= d.state.take(3));
    assert(ready(e) == e);
}

/// The challenge that a transcript draws behind whole blocks is the last two rate lanes of the sponge
/// over these blocks, from the back.
pub proof fn law_sponge_challenges(blocks: Seq<Seq<int>>)
    requires
        blocks.len() > 0,
        blocks_canonical(blocks),
    ensures
        sampled_ext(observed_all(fresh(), laid_out(blocks))) == (
            sponge_output(blocks)[3],
            sponge_output(blocks)[2],
        ),
{
    lemma_behind(blocks);
    lemma_challenge(observed_all(fresh(), laid_out(blocks)), blocks);
}

/// The two challenges of a transcript: behind the instance, and behind the commitments.
pub open spec fn two_challenges(instance: Seq<int>, commitments: Seq<int>) -> (
    (int, int),
    (int, int),
) {
    let d = observed_all(fresh(), instance);
    (sampled_ext(d), sampled_ext(observed_all(after_ext(d), commitments)))
}

/// Draws the two challenges of a transcript.
pub fn native_alpha_zeta(instance: &[u64], commitments: &[u64]) -> (r: (Challenge, Challenge))
    ensures
        (r.0@, r.1@) == two_challenges(ints(instance@), ints(commitments@)),
{
    let mut c: Challenger = Challenger::new();
    c.observe_all(instance);
    let alpha: Challenge = c.sample_ext();
    c.observe_all(commitments);
    let zeta: Challenge = c.sample_ext();
    (alpha, zeta)
}

// The transcript.

/// The blocks of the transcript: two of the instance, two of the commitments.
pub const N_BLOCKS: usize = 4;

pub const HEIGHT: usize = 128;

/// The output row of the second block.
pub const ALPHA_ROW: usize = 63;

pub const P_ALPHA: usize = 12;

pub const N_PERIODIC: usize = 13;

/// A sponge of four blocks that squeezes a challenge behind the second and one behind the last. The
/// public values are the two challenges.
pub struct TranscriptAir;

/// On the last row the public values from the third on are the last two rate lanes, from the back.
pub open spec fn end_polys(env: Env) -> Seq<int> {
    seq![env.cur[3] - env.pis[2], env.cur[2] - env.pis[3]]
}

pub open spec fn transcript_polys(env: Env) -> Seq<(Gate, int)> {
    absorbing_polys(env) + gated(Gate::Always, squeeze_polys(env, env.per[12], 0)) + gated(
        Gate::Last,
        end_polys(env),
    )
}

/// The block columns, and one that is set on the output row of the second block.
pub open spec fn transcript_cols() -> Seq<Seq<int>> {
    block_cols().push(Seq::new(128, |r: int| range_z(r, 63, 64)))
}

impl TranscriptAir {
    pub fn width(&self) -> (r: usize)
        ensures
            r == W,
    {
        W
    }

    pub fn num_public_values(&self) -> (r: usize)
        ensures
            r == 4,
    {
        4
    }

    pub fn num_periodic_columns(&self) -> (r: usize)
        ensures
            r == N_PERIODIC,
    {
        N_PERIODIC
    }

    pub fn periodic_columns(&self) -> (cols: Vec<Vec<u64>>)
        ensures
            cells(cols@) == transcript_cols(),
    {
        let mut cols: Vec<Vec<u64>> = periodic();
        let ghost before = cols@;
        cols.push(range_col(HEIGHT, ALPHA_ROW, ALPHA_ROW + 1));
        proof {
            assert(cells(before).len() == block_cols().len());
            assert forall|j: int| 0 <= j < 13 implies #[trigger] cells(cols@)[j]
                == transcript_cols()[j] by {
                if j < 12 {
                    assert(cells(before)[j] == block_cols()[j]);
                } else {
                    assert(cells(cols@)[j] =~= transcript_cols()[j]);
                }
            }
            assert(cells(cols@) =~= transcript_cols());
        }
        cols
    }

    pub fn eval(&self) -> (r: Vec<Constraint>)
        ensures
            forall|env: Env| #[trigger] denote(r@, env) == transcript_polys(env),
    {
        let mut out: Vec<Constraint> = absorbing_exprs();
        emit_all(&mut out, Gate::Always, &squeeze_exprs(&per(P_ALPHA), 0));
        let end: Vec<Expr> = vec![cur(3).minus(&pis(2)), cur(2).minus(&pis(3))];
        proof {
            assert forall|env: Env| #[trigger] vals(end@, env) == end_polys(env) by {
                assert(vals(end@, env) =~= end_polys(env));
            }
        }
        emit_all(&mut out, Gate::Last, &end);
        out
    }
}

/// Fills the trace of a transcript.
pub fn transcript_build_trace(instance: &[u64; 8], commitments: &[u64; 8]) -> (t: Trace)
    ensures
        cells(t@) == sponge_trace(transcript_blocks(ints(instance@), ints(commitments@))),
{
    let (i, c) = (instance, commitments);
    let blocks: [RateBlock; 4] = [
        [i[0], i[1], i[2], i[3]],
        [i[4], i[5], i[6], i[7]],
        [c[0], c[1], c[2], c[3]],
        [c[4], c[5], c[6], c[7]],
    ];
    proof {
        let want = transcript_blocks(ints(instance@), ints(commitments@));
        assert(ints(blocks@[0]@) =~= want[0] && ints(blocks@[1]@) =~= want[1]);
        assert(ints(blocks@[2]@) =~= want[2] && ints(blocks@[3]@) =~= want[3]);
        assert(blocks_z(blocks@) =~= want);
    }
    build_trace(&blocks)
}

/// The four blocks of a transcript.
pub open spec fn transcript_blocks(instance: Seq<int>, commitments: Seq<int>) -> Seq<Seq<int>> {
    seq![
        instance.subrange(0, 4),
        instance.subrange(4, 8),
        commitments.subrange(0, 4),
        commitments.subrange(4, 8),
    ]
}

/// What the columns hold at a row.
proof fn lemma_transcript_env(t: Seq<Seq<int>>, pv: Seq<int>, r: int)
    requires
        0 <= r < 128,
    ensures
        ({
            let p = row_env(t, transcript_cols(), pv, r).per;
            &&& round_row(p, r % 32)
            &&& p[11] == last_z(r)
            &&& p[12] == range_z(r, 63, 64)
        }),
{
    let c = transcript_cols();
    let p = row_env(t, c, pv, r).per;
    assert forall|j: int| 0 <= j < ROUND_COLS implies #[trigger] p[j] == round_col(j, r % 32) by {
        assert(c[j] == block_cols()[j] && c[j].len() == 32);
    }
    assert(c[11] == block_cols()[11] && c[11].len() == 32);
    assert(c[12].len() == 128);
    vstd::arithmetic::div_mod::lemma_small_mod(r as nat, 128);
}

/// The constraints of a transcript at a row.
proof fn lemma_transcript_holds(env: Env, r: int)
    requires
        env.per[12] == 0 || env.per[12] == 1,
    ensures
        holds(transcript_polys(env), r, 128) <==> {
            &&& holds(absorbing_polys(env), r, 128)
            &&& env.per[12] == 1 ==> squeezed(env.cur, pair(env.pis, 0))
            &&& r == 127 ==> squeezed(env.cur, pair(env.pis, 2))
        },
{
    let a = squeeze_polys(env, env.per[12], 0);
    let z = end_polys(env);
    lemma_squeeze(env, env.per[12], 0);
    lemma_cong_diff(env.cur[3], env.pis[2]);
    lemma_cong_diff(env.cur[2], env.pis[3]);
    if vanish(z) {
        assert(red(z[0]) == 0 && red(z[1]) == 0);
    }
    lemma_holds_gated(Gate::Always, a, r, 128);
    lemma_holds_gated(Gate::Last, z, r, 128);
    lemma_holds_concat(absorbing_polys(env), gated(Gate::Always, a), r, 128);
    lemma_holds_concat(
        absorbing_polys(env) + gated(Gate::Always, a),
        gated(Gate::Last, z),
        r,
        128,
    );
}

/// The trace of a transcript meets the constraints exactly for the two challenges that it draws.
pub proof fn law_transcript_complete(instance: Seq<int>, commitments: Seq<int>, pv: Seq<int>)
    requires
        instance.len() == 8,
        commitments.len() == 8,
        forall|i: int| 0 <= i < 8 ==> 0 <= #[trigger] instance[i] < P,
        forall|i: int| 0 <= i < 8 ==> 0 <= #[trigger] commitments[i] < P,
    ensures
        satisfied(
            |env: Env| transcript_polys(env),
            sponge_trace(transcript_blocks(instance, commitments)),
            transcript_cols(),
            pv,
        ) <==> {
            let (alpha, zeta) = two_challenges(instance, commitments);
            econg(pair(pv, 0), alpha) && econg(pair(pv, 2), zeta)
        },
{
    let blocks = transcript_blocks(instance, commitments);
    let t = sponge_trace(blocks);
    let pc = transcript_cols();
    let polys = |env: Env| transcript_polys(env);
    lemma_two_challenges(instance, commitments);
    assert(blocks_ok(blocks));
    assert forall|r: int|
        #![trigger row_env(t, pc, pv, r)]
        0 <= r < 128 implies (holds(polys(row_env(t, pc, pv, r)), r, 128) <==> (r == 63 ==> squeezed(
        state_after(blocks, 1),
        pair(pv, 0),
    )) && (r == 127 ==> squeezed(state_after(blocks, 3), pair(pv, 2)))) by {
        let env = row_env(t, pc, pv, r);
        lemma_transcript_env(t, pv, r);
        lemma_absorbing_complete(blocks, pc, pv, r);
        lemma_transcript_holds(env, r);
    }
    assert(t.len() == 128);
    if satisfied(polys, t, pc, pv) {
        assert(holds(polys(row_env(t, pc, pv, 63)), 63, 128));
        assert(holds(polys(row_env(t, pc, pv, 127)), 127, 128));
    }
}

/// Whatever trace meets the constraints, its public values are the two challenges of the transcript
/// that its rate lanes hold.
pub proof fn law_transcript_sound(t: Seq<Seq<int>>, pv: Seq<int>)
    requires
        t.len() == 128,
        canonical_cells(t, 8),
        satisfied(|env: Env| transcript_polys(env), t, transcript_cols(), pv),
    ensures
        ({
            let b = trace_blocks(t, 4);
            let (alpha, zeta) = two_challenges(b[0] + b[1], b[2] + b[3]);
            econg(pair(pv, 0), alpha) && econg(pair(pv, 2), zeta)
        }),
{
    let pc = transcript_cols();
    let polys = |env: Env| transcript_polys(env);
    let b = trace_blocks(t, 4);
    assert forall|r: int|
        #![trigger row_env(t, pc, pv, r)]
        0 <= r < t.len() implies holds(absorbing_polys(row_env(t, pc, pv, r)), r, t.len() as int)
        && round_row(row_env(t, pc, pv, r).per, r % 32) && row_env(t, pc, pv, r).per[11] == last_z(
        r,
    ) && (r == 63 ==> squeezed(t[r], pair(pv, 0))) && (r == 127 ==> squeezed(
        t[r],
        pair(pv, 2),
    )) by {
        let env = row_env(t, pc, pv, r);
        assert(holds(polys(env), r, 128));
        lemma_transcript_env(t, pv, r);
        lemma_transcript_holds(env, r);
    }
    lemma_absorbing_sound(t, pc, pv, 4, 1);
    lemma_absorbing_sound(t, pc, pv, 4, 3);
    let (ea, ez) = (row_env(t, pc, pv, 63), row_env(t, pc, pv, 127));
    assert(squeezed(t[63], pair(pv, 0)) && squeezed(t[127], pair(pv, 2)));
    assert(lanes(t[63], 0)[3] == t[63][3] && lanes(t[63], 0)[2] == t[63][2]);
    assert(lanes(t[127], 0)[3] == t[127][3] && lanes(t[127], 0)[2] == t[127][2]);
    let (i, c) = (b[0] + b[1], b[2] + b[3]);
    assert forall|k: int| 0 <= k < 8 implies 0 <= #[trigger] i[k] < P by {
        assert(0 <= t[32 * (k / 4)][k % 4] < P);
    }
    assert forall|k: int| 0 <= k < 8 implies 0 <= #[trigger] c[k] < P by {
        assert(0 <= t[64 + 32 * (k / 4)][k % 4] < P);
    }
    assert(transcript_blocks(i, c)[0] =~= b[0] && transcript_blocks(i, c)[1] =~= b[1]);
    assert(transcript_blocks(i, c)[2] =~= b[2] && transcript_blocks(i, c)[3] =~= b[3]);
    assert(transcript_blocks(i, c) =~= b);
    lemma_two_challenges(i, c);
}

/// The two challenges are squeezed behind the second and the last block.
proof fn lemma_two_challenges(instance: Seq<int>, commitments: Seq<int>)
    requires
        instance.len() == 8,
        commitments.len() == 8,
        forall|i: int| 0 <= i < 8 ==> 0 <= #[trigger] instance[i] < P,
        forall|i: int| 0 <= i < 8 ==> 0 <= #[trigger] commitments[i] < P,
    ensures
        ({
            let b = transcript_blocks(instance, commitments);
            let (alpha, zeta) = two_challenges(instance, commitments);
            &&& blocks_canonical(b)
            &&& alpha == (state_after(b, 1)[3], state_after(b, 1)[2])
            &&& zeta == (state_after(b, 3)[3], state_after(b, 3)[2])
        }),
{
    let b = transcript_blocks(instance, commitments);
    assert forall|i: int, k: int|
        #![trigger b[i][k]]
        0 <= i < 4 && 0 <= k < 4 implies 0 <= b[i][k] < P by {
        if i < 2 {
            assert(b[i][k] == instance[4 * i + k]);
        } else {
            assert(b[i][k] == commitments[4 * (i - 2) + k]);
        }
    }
    assert(blocks_canonical(b));
    let two = b.take(2);
    assert forall|i: int, k: int|
        #![trigger two[i][k]]
        0 <= i < 2 && 0 <= k < 4 implies 0 <= two[i][k] < P by {
        assert(0 <= b[i][k] < P);
    }
    assert(blocks_ok(two));
    reveal_with_fuel(laid_out, 3);
    assert(two.drop_last().drop_last() =~= seq![]);
    assert(laid_out(two) =~= instance);
    lemma_behind(two);
    let d = observed_all(fresh(), instance);
    lemma_challenge(d, two);
    let three = b.take(3);
    assert(three.drop_last() =~= two);
    assert(b.drop_last() =~= three);
    assert forall|i: int, k: int|
        #![trigger three[i][k]]
        0 <= i < 3 && 0 <= k < 4 implies 0 <= three[i][k] < P by {
        assert(0 <= b[i][k] < P);
    }
    assert(blocks_ok(three));
    let e = after_ext(d);
    lemma_next_block(e, three);
    lemma_next_block(observed_all(e, three.last()), b);
    lemma_observed_concat(e, b[2], b[3]);
    assert(b[2] + b[3] =~= commitments);
    let f = observed_all(e, commitments);
    lemma_challenge(f, b);
    lemma_prefix_input(three, 1);
    lemma_prefix_input(b, 1);
    crate::transcript::lemma_sponge_input_len(b, 1);
    crate::transcript::lemma_sponge_input_len(b, 3);
    crate::poseidon2::lemma_perm_row_bound(sponge_input(b, 1), 31);
    crate::poseidon2::lemma_perm_row_bound(sponge_input(b, 3), 31);
}

// The check of the constraints.

pub const CC_LOCAL: usize = 0;

pub const CC_NEXT: usize = 2;

pub const CC_ALPHA: usize = 4;

pub const CC_ISFIRST: usize = 6;

pub const CC_ISTRANS: usize = 8;

pub const CC_INVVAN: usize = 10;

pub const CC_QUOT: usize = 12;

pub const CC_PUB: usize = 14;

pub const CC_WIDTH: usize = 15;

pub const CC_ROWS: usize = 8;

/// The constraints of a constant column at an out-of-domain point, on the first row: folded and divided
/// by the vanishing polynomial they are the quotient, and the public values are the quotient.
pub struct ConstraintCheckAir;

/// The folded constraints of a constant column, divided by the vanishing polynomial.
pub open spec fn divided(
    local: (int, int),
    next: (int, int),
    alpha: (int, int),
    is_first: (int, int),
    is_trans: (int, int),
    inv_van: (int, int),
    value: int,
) -> (int, int) {
    let start = zmul(is_first, zsub(local, (value, 0int)));
    let step = zmul(is_trans, zsub(next, local));
    zmul(zadd(zmul(start, alpha), step), inv_van)
}

/// What a row holds of it.
pub open spec fn divided_cells(c: Seq<int>) -> (int, int) {
    divided(pair(c, 0), pair(c, 2), pair(c, 4), pair(c, 6), pair(c, 8), pair(c, 10), c[14])
}

pub open spec fn check_polys(env: Env) -> Seq<(Gate, int)> {
    let c = env.cur;
    let d = divided_cells(c);
    seq![
        (Gate::First, d.0 - c[12]),
        (Gate::First, d.1 - c[13]),
        (Gate::First, c[12] - env.pis[0]),
        (Gate::First, c[13] - env.pis[1]),
    ]
}

impl ConstraintCheckAir {
    pub fn width(&self) -> (r: usize)
        ensures
            r == CC_WIDTH,
    {
        CC_WIDTH
    }

    pub fn num_public_values(&self) -> (r: usize)
        ensures
            r == 2,
    {
        2
    }

    pub fn eval(&self) -> (r: Vec<Constraint>)
        ensures
            forall|env: Env| #[trigger] denote(r@, env) == check_polys(env),
    {
        let local: ExtExpr = cur_ext(CC_LOCAL);
        let shifted: ExtExpr = ExtExpr {
            c0: cur(CC_LOCAL).minus(&cur(CC_PUB)),
            c1: cur(CC_LOCAL + 1),
        };
        let start: ExtExpr = cur_ext(CC_ISFIRST).times(&shifted);
        let step: ExtExpr = cur_ext(CC_ISTRANS).times(&cur_ext(CC_NEXT).minus(&local));
        let folded: ExtExpr = start.times(&cur_ext(CC_ALPHA)).plus(&step);
        let shown: ExtExpr = folded.times(&cur_ext(CC_INVVAN));
        proof {
            assert forall|env: Env| #[trigger] shown.val(env) == divided_cells(env.cur) by {
                let c = env.cur;
                assert(shifted.val(env) == zsub(pair(c, 0), (c[14], 0int)));
            }
        }
        let mut out: Vec<Constraint> = Vec::new();
        emit(&mut out, Gate::First, shown.c0.minus(&cur(CC_QUOT)));
        emit(&mut out, Gate::First, shown.c1.minus(&cur(CC_QUOT + 1)));
        emit(&mut out, Gate::First, cur(CC_QUOT).minus(&pis(0)));
        emit(&mut out, Gate::First, cur(CC_QUOT + 1).minus(&pis(1)));
        proof {
            assert forall|env: Env| #[trigger] denote(out@, env) == check_polys(env) by {
                assert(shown.val(env) == divided_cells(env.cur));
                assert(denote(out@, env) =~= check_polys(env));
            }
        }
        out
    }
}

/// The row of a check.
pub open spec fn check_row(
    local: (int, int),
    next: (int, int),
    alpha: (int, int),
    is_first: (int, int),
    is_trans: (int, int),
    inv_van: (int, int),
    quotient: (int, int),
    value: int,
) -> Seq<int> {
    seq![
        local.0,
        local.1,
        next.0,
        next.1,
        alpha.0,
        alpha.1,
        is_first.0,
        is_first.1,
        is_trans.0,
        is_trans.1,
        inv_van.0,
        inv_van.1,
        quotient.0,
        quotient.1,
        value,
    ]
}

/// Fills the trace of a check: one row, repeated.
pub fn cc_build_trace(
    local: Challenge,
    next: Challenge,
    alpha: Challenge,
    is_first: Challenge,
    is_trans: Challenge,
    inv_van: Challenge,
    quotient: Challenge,
    value: u64,
) -> (t: Trace)
    ensures
        cells(t@) == Seq::new(
            CC_ROWS as nat,
            |r: int|
                check_row(
                    local@,
                    next@,
                    alpha@,
                    is_first@,
                    is_trans@,
                    inv_van@,
                    quotient@,
                    value as int,
                ),
        ),
{
    let row: Vec<u64> = vec![
        local.c0,
        local.c1,
        next.c0,
        next.c1,
        alpha.c0,
        alpha.c1,
        is_first.c0,
        is_first.c1,
        is_trans.c0,
        is_trans.c1,
        inv_van.c0,
        inv_van.c1,
        quotient.c0,
        quotient.c1,
        value,
    ];
    assert(ints(row@) =~= check_row(
        local@,
        next@,
        alpha@,
        is_first@,
        is_trans@,
        inv_van@,
        quotient@,
        value as int,
    ));
    crate::monolith::query::repeat_row(&row, CC_ROWS)
}

/// Whatever trace meets the constraints of a check, its public values are the divided constraints of
/// its first row.
pub proof fn law_check_sound(t: Seq<Seq<int>>, claimed: (int, int))
    requires
        t.len() > 0,
        satisfied(|env: Env| check_polys(env), t, Seq::empty(), seq![claimed.0, claimed.1]),
    ensures
        econg(claimed, divided_cells(t[0])),
{
    let env = row_env(t, Seq::empty(), seq![claimed.0, claimed.1], 0);
    let p = check_polys(env);
    assert(holds(p, 0, t.len() as int));
    assert(red(p[0].1) == 0 && red(p[1].1) == 0 && red(p[2].1) == 0 && red(p[3].1) == 0);
    let d = divided_cells(t[0]);
    lemma_cong_diff(d.0, t[0][12]);
    lemma_cong_diff(d.1, t[0][13]);
    lemma_cong_diff(t[0][12], claimed.0);
    lemma_cong_diff(t[0][13], claimed.1);
}

/// The trace of a check meets the constraints exactly where the quotient is that of the divided
/// constraints and the public values are the quotient.
pub proof fn law_check_complete(
    local: (int, int),
    next: (int, int),
    alpha: (int, int),
    is_first: (int, int),
    is_trans: (int, int),
    inv_van: (int, int),
    quotient: (int, int),
    value: int,
    claimed: (int, int),
)
    ensures
        satisfied(
            |env: Env| check_polys(env),
            Seq::new(
                CC_ROWS as nat,
                |r: int|
                    check_row(local, next, alpha, is_first, is_trans, inv_van, quotient, value),
            ),
            Seq::empty(),
            seq![claimed.0, claimed.1],
        ) <==> econg(claimed, quotient) && econg(
            quotient,
            divided(local, next, alpha, is_first, is_trans, inv_van, value),
        ),
{
    let row = check_row(local, next, alpha, is_first, is_trans, inv_van, quotient, value);
    let t = Seq::new(CC_ROWS as nat, |r: int| row);
    assert(t =~= Seq::new(
        CC_ROWS as nat,
        |r: int| check_row(local, next, alpha, is_first, is_trans, inv_van, quotient, value),
    ));
    let pv = seq![claimed.0, claimed.1];
    let polys = |env: Env| check_polys(env);
    let d = divided(local, next, alpha, is_first, is_trans, inv_van, value);
    assert(pair(row, 0) == local && pair(row, 2) == next && pair(row, 4) == alpha && pair(row, 6)
        == is_first && pair(row, 8) == is_trans && pair(row, 10) == inv_van);
    assert(divided_cells(row) == d);
    lemma_cong_diff(d.0, quotient.0);
    lemma_cong_diff(d.1, quotient.1);
    lemma_cong_diff(quotient.0, claimed.0);
    lemma_cong_diff(quotient.1, claimed.1);
    if satisfied(polys, t, Seq::empty(), pv) {
        let p = polys(row_env(t, Seq::empty(), pv, 0));
        assert(holds(p, 0, t.len() as int));
        assert(red(p[0].1) == 0 && red(p[1].1) == 0 && red(p[2].1) == 0 && red(p[3].1) == 0);
    } else {
        if econg(claimed, quotient) && econg(quotient, d) {
            assert forall|r: int|
                #![trigger row_env(t, Seq::empty(), pv, r)]
                0 <= r < t.len() implies holds(
                polys(row_env(t, Seq::empty(), pv, r)),
                r,
                t.len() as int,
            ) by {
                let env = row_env(t, Seq::empty(), pv, r);
                assert(env.cur == row);
            }
        }
    }
}

} // verus!
