//! Transcripts as constraint systems: a preamble that squeezes two challenges, and a duplex sponge
//! with a schedule of absorbed counts that binds every challenge and every sampled index element.
use crate::cols::{
    count_col, count_of, count_z, last_col, last_z, lemma_np2, next_power_of_two, np2, range_col,
    range_z, squeeze_col, squeeze_z,
};
use crate::expr::{
    cells, cur, denote, emit_all, Constraint, Env, Expr, gated, Gate, holds, lemma_holds_concat,
    lemma_holds_gated, pair, per, pis, row_env, satisfied, Trace, vals, vanish,
};
use crate::field::{cong, ints, lemma_cong_diff, red};
use crate::fri_merkle::{block_cols, canonical_cells, lemma_steps_follow, periodic};
use crate::gadgets::{
    bind_exprs, bind_polys, index_bind_exprs, index_bind_polys, sponge_link, sponge_link_exprs,
    sponge_start, sponge_start_exprs, FT_BIND_START, FT_COUNT,
};
use crate::poseidon2::{
    lanes, lemma_block, lemma_perm_row_bound, lemma_perm_step, lemma_round_idle,
    lemma_rounds_vanish, native_permute, perm, perm_row, periodic_table, red_seq, round_col,
    round_exprs, round_polys, round_row, step_z, BLOCK, ROUND_COLS, W,
};
use crate::transcript::{
    absorbing_exprs, absorbing_polys, blocks_ok, blocks_z, build_trace, chain_rows, chain_trace,
    lemma_absorbing_complete, lemma_absorbing_sound, sponge_input, sponge_trace, states,
    trace_blocks, RateBlock,
};
use super::tiled::lemma_one;
use vstd::prelude::*;

verus! {

/// Where `on` is set, the two public values at `at` are the last two rate lanes, from the back.
pub open spec fn squeeze_polys(env: Env, on: int, at: int) -> Seq<int> {
    seq![on * (env.cur[3] - env.pis[at]), on * (env.cur[2] - env.pis[at + 1])]
}

pub fn squeeze_exprs(on: &Expr, at: usize) -> (r: Vec<Expr>)
    requires
        at < usize::MAX,
    ensures
        r.len() == 2,
        forall|env: Env| #[trigger] vals(r@, env) == squeeze_polys(env, on.val(env), at as int),
{
    let r: Vec<Expr> = vec![
        on.times(&cur(3).minus(&pis(at))),
        on.times(&cur(2).minus(&pis(at + 1))),
    ];
    proof {
        assert forall|env: Env| #[trigger]
            vals(r@, env) == squeeze_polys(env, on.val(env), at as int) by {
            assert(vals(r@, env) =~= squeeze_polys(env, on.val(env), at as int));
        }
    }
    r
}

/// A challenge is squeezed from the last two rate lanes, from the back.
pub open spec fn squeezed(state: Seq<int>, c: (int, int)) -> bool {
    cong(state[3], c.0) && cong(state[2], c.1)
}

pub proof fn lemma_squeeze(env: Env, on: int, at: int)
    requires
        on == 0 || on == 1,
    ensures
        vanish(squeeze_polys(env, on, at)) <==> (on == 1 ==> squeezed(env.cur, pair(env.pis, at))),
{
    let p = squeeze_polys(env, on, at);
    lemma_one(on, env.cur[3] - env.pis[at]);
    lemma_one(on, env.cur[2] - env.pis[at + 1]);
    lemma_cong_diff(env.cur[3], env.pis[at]);
    lemma_cong_diff(env.cur[2], env.pis[at + 1]);
    if vanish(p) {
        assert(red(p[0]) == 0 && red(p[1]) == 0);
    }
}

// The preamble.

pub const P_ALPHA: usize = 12;

pub const P_ZETA: usize = 13;

pub const N_PERIODIC: usize = 14;

/// A sponge that absorbs `i_blocks` blocks and squeezes the first challenge, then absorbs `c_blocks`
/// blocks and squeezes the second. The public values are the two challenges.
pub struct PreambleAir {
    pub i_blocks: usize,
    pub c_blocks: usize,
}

/// A sponge whose periodic columns 12 and 13 select two squeezes.
pub open spec fn two_squeezes(env: Env) -> Seq<(Gate, int)> {
    absorbing_polys(env) + gated(Gate::Always, squeeze_polys(env, env.per[12], 0)) + gated(
        Gate::Always,
        squeeze_polys(env, env.per[13], 2),
    )
}

pub fn two_squeezes_exprs() -> (out: Vec<Constraint>)
    ensures
        forall|env: Env| #[trigger] denote(out@, env) == two_squeezes(env),
{
    let mut out: Vec<Constraint> = absorbing_exprs();
    emit_all(&mut out, Gate::Always, &squeeze_exprs(&per(P_ALPHA), 0));
    emit_all(&mut out, Gate::Always, &squeeze_exprs(&per(P_ZETA), 2));
    out
}

/// The block columns, and two columns of height `h` that are set on one row each.
pub open spec fn squeeze_cols(h: int, first: int, second: int) -> Seq<Seq<int>> {
    block_cols().push(Seq::new(h as nat, |r: int| range_z(r, first, first + 1))).push(
        Seq::new(h as nat, |r: int| range_z(r, second, second + 1)),
    )
}

pub fn squeeze_columns(h: usize, first: usize, second: usize) -> (cols: Vec<Vec<u64>>)
    requires
        first < usize::MAX,
        second < usize::MAX,
    ensures
        cells(cols@) == squeeze_cols(h as int, first as int, second as int),
{
    let mut cols: Vec<Vec<u64>> = periodic();
    let ghost before = cols@;
    assert(cells(before) == block_cols());
    cols.push(range_col(h, first, first + 1));
    cols.push(range_col(h, second, second + 1));
    proof {
        let want = squeeze_cols(h as int, first as int, second as int);
        assert(before.len() == 12) by {
            assert(cells(before).len() == block_cols().len());
        }
        assert forall|j: int| 0 <= j < 14 implies #[trigger] cells(cols@)[j] == want[j] by {
            if j < 12 {
                assert(cells(before)[j] == block_cols()[j]);
            } else {
                assert(cells(cols@)[j] =~= want[j]);
            }
        }
        assert(cells(cols@) =~= want);
    }
    cols
}

/// What the columns hold at row `r`.
pub proof fn lemma_squeeze_env(t: Seq<Seq<int>>, pv: Seq<int>, h: int, first: int, second: int, r: int)
    requires
        0 <= r < h,
    ensures
        ({
            let p = row_env(t, squeeze_cols(h, first, second), pv, r).per;
            &&& round_row(p, r % 32)
            &&& p[11] == last_z(r)
            &&& p[12] == range_z(r, first, first + 1)
            &&& p[13] == range_z(r, second, second + 1)
        }),
{
    let c = squeeze_cols(h, first, second);
    let p = row_env(t, c, pv, r).per;
    assert forall|j: int| 0 <= j < ROUND_COLS implies #[trigger] p[j] == round_col(j, r % 32) by {
        assert(c[j] == block_cols()[j] && c[j].len() == 32);
    }
    assert(c[11] == block_cols()[11] && c[11].len() == 32);
    assert(c[12].len() == h && c[13].len() == h);
    vstd::arithmetic::div_mod::lemma_small_mod(r as nat, h as nat);
}

/// The constraints of two squeezes at a row.
pub proof fn lemma_two_squeezes(env: Env, r: int, h: int)
    requires
        env.per[12] == 0 || env.per[12] == 1,
        env.per[13] == 0 || env.per[13] == 1,
    ensures
        holds(two_squeezes(env), r, h) <==> {
            &&& holds(absorbing_polys(env), r, h)
            &&& env.per[12] == 1 ==> squeezed(env.cur, pair(env.pis, 0))
            &&& env.per[13] == 1 ==> squeezed(env.cur, pair(env.pis, 2))
        },
{
    let (a, b) = (squeeze_polys(env, env.per[12], 0), squeeze_polys(env, env.per[13], 2));
    lemma_squeeze(env, env.per[12], 0);
    lemma_squeeze(env, env.per[13], 2);
    lemma_holds_gated(Gate::Always, a, r, h);
    lemma_holds_gated(Gate::Always, b, r, h);
    lemma_holds_concat(absorbing_polys(env), gated(Gate::Always, a), r, h);
    lemma_holds_concat(
        absorbing_polys(env) + gated(Gate::Always, a),
        gated(Gate::Always, b),
        r,
        h,
    );
}

/// The state that a sponge over `blocks` holds after block `b`.
pub open spec fn state_after(blocks: Seq<Seq<int>>, b: int) -> Seq<int> {
    perm(sponge_input(blocks, b as nat))
}

/// The trace of a sponge meets the constraints of two squeezes exactly for the challenges that it
/// squeezes after the two blocks.
pub proof fn lemma_two_squeezes_complete(blocks: Seq<Seq<int>>, a: int, z: int, pv: Seq<int>)
    requires
        blocks_ok(blocks),
        0 <= a < blocks.len(),
        0 <= z < blocks.len(),
    ensures
        satisfied(
            |env: Env| two_squeezes(env),
            sponge_trace(blocks),
            squeeze_cols(32 * blocks.len() as int, 32 * a + 31, 32 * z + 31),
            pv,
        ) <==> squeezed(state_after(blocks, a), pair(pv, 0)) && squeezed(
            state_after(blocks, z),
            pair(pv, 2),
        ),
{
    let t = sponge_trace(blocks);
    let h = 32 * blocks.len() as int;
    let pc = squeeze_cols(h, 32 * a + 31, 32 * z + 31);
    let polys = |env: Env| two_squeezes(env);
    assert forall|r: int|
        #![trigger row_env(t, pc, pv, r)]
        0 <= r < h implies (holds(polys(row_env(t, pc, pv, r)), r, h) <==> (r == 32 * a + 31
        ==> squeezed(state_after(blocks, a), pair(pv, 0))) && (r == 32 * z + 31 ==> squeezed(
        state_after(blocks, z),
        pair(pv, 2),
    ))) by {
        let env = row_env(t, pc, pv, r);
        lemma_squeeze_env(t, pv, h, 32 * a + 31, 32 * z + 31, r);
        lemma_absorbing_complete(blocks, pc, pv, r);
        lemma_two_squeezes(env, r, h);
    }
    if satisfied(polys, t, pc, pv) {
        assert(holds(polys(row_env(t, pc, pv, 32 * a + 31)), 32 * a + 31, h));
        assert(holds(polys(row_env(t, pc, pv, 32 * z + 31)), 32 * z + 31, h));
    }
}

/// Whatever trace meets the constraints of two squeezes, its public values are the challenges that
/// the sponge over its rate lanes squeezes after the two blocks.
pub proof fn lemma_two_squeezes_sound(t: Seq<Seq<int>>, m: nat, a: int, z: int, pv: Seq<int>)
    requires
        t.len() == 32 * m,
        0 <= a < m,
        0 <= z < m,
        canonical_cells(t, 8),
        satisfied(
            |env: Env| two_squeezes(env),
            t,
            squeeze_cols(32 * m as int, 32 * a + 31, 32 * z + 31),
            pv,
        ),
    ensures
        squeezed(state_after(trace_blocks(t, m), a), pair(pv, 0)),
        squeezed(state_after(trace_blocks(t, m), z), pair(pv, 2)),
{
    let h = 32 * m as int;
    let pc = squeeze_cols(h, 32 * a + 31, 32 * z + 31);
    let polys = |env: Env| two_squeezes(env);
    assert forall|r: int|
        #![trigger row_env(t, pc, pv, r)]
        0 <= r < t.len() implies holds(absorbing_polys(row_env(t, pc, pv, r)), r, t.len() as int)
        && round_row(row_env(t, pc, pv, r).per, r % 32) && row_env(t, pc, pv, r).per[11] == last_z(
        r,
    ) && (r == 32 * a + 31 ==> squeezed(t[r], pair(pv, 0))) && (r == 32 * z + 31 ==> squeezed(
        t[r],
        pair(pv, 2),
    )) by {
        let env = row_env(t, pc, pv, r);
        assert(holds(polys(env), r, h));
        lemma_squeeze_env(t, pv, h, 32 * a + 31, 32 * z + 31, r);
        lemma_two_squeezes(env, r, h);
    }
    lemma_absorbing_sound(t, pc, pv, m, a as nat);
    lemma_absorbing_sound(t, pc, pv, m, z as nat);
    let (ra, rz) = (32 * a + 31, 32 * z + 31);
    let (ea, ez) = (row_env(t, pc, pv, ra), row_env(t, pc, pv, rz));
    assert(squeezed(t[ra], pair(pv, 0)) && squeezed(t[rz], pair(pv, 2)));
    assert(lanes(t[ra], 0)[3] == t[ra][3] && lanes(t[ra], 0)[2] == t[ra][2]);
    assert(lanes(t[rz], 0)[3] == t[rz][3] && lanes(t[rz], 0)[2] == t[rz][2]);
}

impl PreambleAir {
    /// There is a block before the first squeeze, and the trace has a height.
    pub open spec fn wf(self) -> bool {
        &&& self.i_blocks >= 1
        &&& np2(self.i_blocks + self.c_blocks) * 32 <= usize::MAX
    }

    pub open spec fn padded_z(self) -> int {
        np2(self.i_blocks + self.c_blocks)
    }

    /// The periodic columns.
    pub open spec fn cols_z(self) -> Seq<Seq<int>> {
        squeeze_cols(
            32 * self.padded_z(),
            32 * (self.i_blocks - 1) + 31,
            32 * (self.i_blocks + self.c_blocks - 1) + 31,
        )
    }

    pub fn n_blocks(&self) -> (r: usize)
        requires
            self.wf(),
        ensures
            r == self.i_blocks + self.c_blocks,
    {
        proof {
            lemma_np2(self.i_blocks + self.c_blocks);
        }
        self.i_blocks + self.c_blocks
    }

    pub fn padded_blocks(&self) -> (r: usize)
        requires
            self.wf(),
        ensures
            r == self.padded_z(),
    {
        next_power_of_two(self.n_blocks())
    }

    pub fn height(&self) -> (r: usize)
        requires
            self.wf(),
        ensures
            r == self.padded_z() * 32,
    {
        self.padded_blocks() * BLOCK
    }

    /// The output row of the last block before the first squeeze.
    pub fn alpha_row(&self) -> (r: usize)
        requires
            self.wf(),
        ensures
            r == self.i_blocks * 32 - 1,
    {
        proof {
            lemma_np2(self.i_blocks + self.c_blocks);
        }
        self.i_blocks * BLOCK - 1
    }

    /// The output row of the last block.
    pub fn zeta_row(&self) -> (r: usize)
        requires
            self.wf(),
        ensures
            r == (self.i_blocks + self.c_blocks) * 32 - 1,
    {
        proof {
            lemma_np2(self.i_blocks + self.c_blocks);
        }
        self.n_blocks() * BLOCK - 1
    }

    pub fn periodic(&self) -> (cols: Vec<Vec<u64>>)
        requires
            self.wf(),
        ensures
            cells(cols@) == self.cols_z(),
    {
        proof {
            lemma_np2(self.i_blocks + self.c_blocks);
        }
        squeeze_columns(self.height(), self.alpha_row(), self.zeta_row())
    }

    pub fn width(&self) -> (r: usize)
        ensures
            r == W,
    {
        W
    }

    pub fn num_public_values(&self) -> (r: usize)
        ensures
            r == 4,
    {
        4
    }

    pub fn num_periodic_columns(&self) -> (r: usize)
        ensures
            r == N_PERIODIC,
    {
        N_PERIODIC
    }

    pub fn eval(&self) -> (r: Vec<Constraint>)
        ensures
            forall|env: Env| #[trigger] denote(r@, env) == two_squeezes(env),
    {
        two_squeezes_exprs()
    }
}

/// The absorbed elements in blocks, then blocks of zeros.
pub open spec fn felt_blocks(felts: Seq<int>, n: int) -> Seq<Seq<int>> {
    Seq::new(
        n as nat,
        |b: int|
            if 4 * b + 4 <= felts.len() {
                felts.subrange(4 * b, 4 * b + 4)
            } else {
                seq![0int, 0, 0, 0]
            },
    )
}

/// Fills the trace of a preamble.
pub fn preamble_build_trace(
    i_blocks: usize,
    c_blocks: usize,
    instance: &Vec<u64>,
    commitment: &Vec<u64>,
) -> (t: Trace)
    requires
        np2(i_blocks + c_blocks) * 32 <= usize::MAX,
        instance.len() == i_blocks * 4,
        commitment.len() == c_blocks * 4,
    ensures
        cells(t@) == sponge_trace(
            felt_blocks(ints(instance@) + ints(commitment@), np2(i_blocks + c_blocks)),
        ),
{
    proof {
        lemma_np2(i_blocks + c_blocks);
    }
    let n: usize = i_blocks + c_blocks;
    let padded: usize = next_power_of_two(n);
    let ghost felts = ints(instance@) + ints(commitment@);
    let mut blocks: Vec<RateBlock> = Vec::new();
    for b in 0..padded
        invariant
            n == i_blocks + c_blocks,
            n <= padded,
            padded == np2(i_blocks + c_blocks),
            instance.len() == i_blocks * 4,
            commitment.len() == c_blocks * 4,
            felts == ints(instance@) + ints(commitment@),
            blocks.len() == b,
            forall|j: int|
                0 <= j < b ==> ints((#[trigger] blocks@[j])@) == felt_blocks(felts, padded as int)[j],
    {
        let blk: RateBlock = if b < i_blocks {
            [instance[4 * b], instance[4 * b + 1], instance[4 * b + 2], instance[4 * b + 3]]
        } else if b < n {
            let k: usize = b - i_blocks;
            [commitment[4 * k], commitment[4 * k + 1], commitment[4 * k + 2], commitment[4 * k + 3]]
        } else {
            [0, 0, 0, 0]
        };
        assert(ints(blk@) =~= felt_blocks(felts, padded as int)[b as int]);
        blocks.push(blk);
    }
    assert(blocks_z(blocks@) =~= felt_blocks(felts, padded as int));
    build_trace(blocks.as_slice())
}

/// The trace of a preamble meets the constraints exactly for the two challenges that the sponge
/// squeezes.
pub proof fn law_preamble_complete(air: PreambleAir, felts: Seq<int>, pv: Seq<int>)
    requires
        air.wf(),
    ensures
        ({
            let blocks = felt_blocks(felts, air.padded_z());
            satisfied(
                |env: Env| two_squeezes(env),
                sponge_trace(blocks),
                air.cols_z(),
                pv,
            ) <==> squeezed(state_after(blocks, air.i_blocks - 1), pair(pv, 0)) && squeezed(
                state_after(blocks, air.i_blocks + air.c_blocks - 1),
                pair(pv, 2),
            )
        }),
{
    lemma_np2(air.i_blocks + air.c_blocks);
    let blocks = felt_blocks(felts, air.padded_z());
    assert(blocks_ok(blocks));
    lemma_two_squeezes_complete(blocks, air.i_blocks - 1, air.i_blocks + air.c_blocks - 1, pv);
}

/// Whatever trace meets the constraints of a preamble, its public values are the challenges that the
/// sponge over its rate lanes squeezes.
pub proof fn law_preamble_sound(air: PreambleAir, t: Seq<Seq<int>>, pv: Seq<int>)
    requires
        air.wf(),
        t.len() == 32 * air.padded_z(),
        canonical_cells(t, 8),
        satisfied(|env: Env| two_squeezes(env), t, air.cols_z(), pv),
    ensures
        ({
            let blocks = trace_blocks(t, air.padded_z() as nat);
            &&& squeezed(state_after(blocks, air.i_blocks - 1), pair(pv, 0))
            &&& squeezed(state_after(blocks, air.i_blocks + air.c_blocks - 1), pair(pv, 2))
        }),
{
    lemma_np2(air.i_blocks + air.c_blocks);
    lemma_two_squeezes_sound(
        t,
        air.padded_z() as nat,
        air.i_blocks - 1,
        air.i_blocks + air.c_blocks - 1,
        pv,
    );
}

// The full transcript.

/// A duplex sponge with a schedule: `counts` are the absorbed counts of its blocks (zero where a
/// block squeezes), `binds` the blocks after which a challenge is squeezed, and `index_binds` the
/// block and the lane that each index element is taken from.
#[derive(Debug)]
pub struct FullTranscriptAir {
    pub counts: Vec<u8>,
    pub binds: Vec<usize>,
    pub index_binds: Vec<(usize, usize)>,
}

pub open spec fn ft_polys(env: Env, nb: int, index_binds: Seq<(usize, usize)>) -> Seq<(Gate, int)> {
    gated(Gate::Transition, round_polys(lanes(env.cur, 0), lanes(env.nxt, 0), env.per)) + gated(
        Gate::First,
        sponge_start(env.cur, env.per[12]),
    ) + gated(Gate::Transition, sponge_link(env.cur, env.nxt, env.per)) + gated(
        Gate::Always,
        bind_polys(env.cur, env.per, env.pis, nb),
    ) + gated(
        Gate::Always,
        index_bind_polys(env.cur, env.per, env.pis, nb, index_binds),
    )
}

impl FullTranscriptAir {
    pub open spec fn padded_z(self) -> int {
        np2(self.counts.len() as int)
    }

    /// The trace has a height, every bound block is in it, and every column can be addressed.
    pub open spec fn wf(self) -> bool {
        &&& self.padded_z() * 32 <= usize::MAX
        &&& 2 * self.binds.len() + self.index_binds.len() + 100 <= usize::MAX
        &&& forall|j: int|
            0 <= j < self.binds.len() ==> (#[trigger] self.binds@[j]) < self.padded_z()
        &&& forall|j: int|
            0 <= j < self.index_binds.len() ==> (#[trigger] self.index_binds@[j]).0
                < self.padded_z() && self.index_binds@[j].1 < 8
    }

    /// Entry `r` of periodic column `j`.
    pub open spec fn col(self, j: int, r: int) -> int {
        let nb = self.binds.len() as int;
        let h = self.padded_z() * 32;
        if j < 11 {
            round_col(j, r)
        } else if j == 11 {
            last_z(r)
        } else if j == 12 {
            count_z(self.counts@, r, 0, h)
        } else if j == 13 {
            count_z(self.counts@, r, 1, h)
        } else if j == 14 {
            squeeze_z(self.counts@, r, h)
        } else if j < 15 + nb {
            range_z(r, self.binds@[j - 15] * 32 + 31, self.binds@[j - 15] * 32 + 32)
        } else {
            let b = self.index_binds@[j - 15 - nb].0;
            range_z(r, b * 32 + 31, b * 32 + 32)
        }
    }

    /// The periodic columns.
    pub open spec fn cols_z(self) -> Seq<Seq<int>> {
        Seq::new(
            (15 + self.binds.len() + self.index_binds.len()) as nat,
            |j: int|
                Seq::new(
                    if j < 12 {
                        32nat
                    } else {
                        (self.padded_z() * 32) as nat
                    },
                    |r: int| self.col(j, r),
                ),
        )
    }

    pub fn n_blocks(&self) -> (r: usize)
        ensures
            r == self.counts.len(),
    {
        self.counts.len()
    }

    pub fn height(&self) -> (r: usize)
        requires
            self.wf(),
        ensures
            r == self.padded_z() * 32,
    {
        next_power_of_two(self.n_blocks()) * BLOCK
    }

    pub fn periodic(&self) -> (cols: Vec<Vec<u64>>)
        requires
            self.wf(),
        ensures
            cells(cols@) == self.cols_z(),
    {
        let h: usize = self.height();
        proof {
            lemma_np2(self.counts.len() as int);
        }
        let mut cols: Vec<Vec<u64>> = periodic_table();
        cols.push(last_col(BLOCK));
        cols.push(count_col(h, &self.counts, 0, h));
        cols.push(count_col(h, &self.counts, 1, h));
        cols.push(squeeze_col(h, &self.counts, h));
        let nb: usize = self.binds.len();
        let ni: usize = self.index_binds.len();
        proof {
            assert forall|j: int| 0 <= j < 15 implies ints((#[trigger] cols@[j])@)
                == self.cols_z()[j] by {
                assert(ints(cols@[j]@) =~= self.cols_z()[j]);
            }
        }
        for i in 0..nb
            invariant
                nb == self.binds.len(),
                self.wf(),
                h == self.padded_z() * 32,
                cols.len() == 15 + i,
                forall|j: int|
                    0 <= j < cols.len() ==> ints((#[trigger] cols@[j])@) == self.cols_z()[j],
        {
            assert(self.binds@[i as int] < self.padded_z());
            let at: usize = self.binds[i] * BLOCK + BLOCK - 1;
            let c: Vec<u64> = range_col(h, at, at + 1);
            assert(ints(c@) =~= self.cols_z()[15 + i]);
            cols.push(c);
        }
        for i in 0..ni
            invariant
                nb == self.binds.len(),
                ni == self.index_binds.len(),
                self.wf(),
                h == self.padded_z() * 32,
                cols.len() == 15 + nb + i,
                forall|j: int|
                    0 <= j < cols.len() ==> ints((#[trigger] cols@[j])@) == self.cols_z()[j],
        {
            assert(self.index_binds@[i as int].0 < self.padded_z());
            let at: usize = self.index_binds[i].0 * BLOCK + BLOCK - 1;
            let c: Vec<u64> = range_col(h, at, at + 1);
            assert(ints(c@) =~= self.cols_z()[15 + nb + i]);
            cols.push(c);
        }
        assert(cells(cols@) =~= self.cols_z());
        cols
    }

    pub fn width(&self) -> (r: usize)
        ensures
            r == W,
    {
        W
    }

    pub fn num_public_values(&self) -> (r: usize)
        requires
            self.wf(),
        ensures
            r == 2 * self.binds.len() + self.index_binds.len(),
    {
        2 * self.binds.len() + self.index_binds.len()
    }

    pub fn num_periodic_columns(&self) -> (r: usize)
        requires
            self.wf(),
        ensures
            r == 15 + self.binds.len() + self.index_binds.len(),
    {
        FT_BIND_START + self.binds.len() + self.index_binds.len()
    }

    pub fn eval(&self) -> (r: Vec<Constraint>)
        requires
            self.wf(),
        ensures
            forall|env: Env|
                #[trigger] denote(r@, env) == ft_polys(
                    env,
                    self.binds.len() as int,
                    self.index_binds@,
                ),
    {
        let mut out: Vec<Constraint> = Vec::new();
        emit_all(&mut out, Gate::Transition, &round_exprs(0));
        emit_all(&mut out, Gate::First, &sponge_start_exprs(&per(FT_COUNT)));
        emit_all(&mut out, Gate::Transition, &sponge_link_exprs());
        emit_all(&mut out, Gate::Always, &bind_exprs(self.binds.len()));
        emit_all(
            &mut out,
            Gate::Always,
            &index_bind_exprs(self.binds.len(), &self.index_binds),
        );
        proof {
            assert forall|env: Env|
                #[trigger] denote(out@, env) == ft_polys(
                    env,
                    self.binds.len() as int,
                    self.index_binds@,
                ) by {
                assert(denote(out@, env) =~= ft_polys(
                    env,
                    self.binds.len() as int,
                    self.index_binds@,
                ));
            }
        }
        out
    }
}

/// The input of block `b`: the recorded one, and beyond the recorded ones the output of the block
/// before.
pub open spec fn ft_input(inputs: Seq<Seq<int>>, b: nat) -> Seq<int>
    decreases b,
{
    if b < inputs.len() {
        inputs[b as int]
    } else if b == 0 {
        seq![0int, 0, 0, 0, 0, 0, 0, 0]
    } else {
        perm(ft_input(inputs, (b - 1) as nat))
    }
}

/// The inputs of all blocks up to a power of two.
pub open spec fn ft_inputs(inputs: Seq<Seq<int>>) -> Seq<Seq<int>> {
    Seq::new(np2(inputs.len() as int) as nat, |b: int| ft_input(inputs, b as nat))
}

pub open spec fn ft_trace(inputs: Seq<Seq<int>>) -> Seq<Seq<int>> {
    chain_trace(ft_inputs(inputs))
}

/// Fills the trace of a transcript from the recorded inputs of its blocks.
pub fn ft_build_trace(block_inputs: &Vec<[u64; 8]>) -> (t: Trace)
    requires
        np2(block_inputs.len() as int) <= usize::MAX,
    ensures
        cells(t@) == ft_trace(states(block_inputs@)),
{
    let n: usize = block_inputs.len();
    proof {
        lemma_np2(n as int);
    }
    let padded: usize = next_power_of_two(n);
    let ghost ins = states(block_inputs@);
    let mut all: Vec<[u64; 8]> = Vec::new();
    let mut out: [u64; 8] = [0; 8];
    for b in 0..padded
        invariant
            n == block_inputs.len(),
            ins == states(block_inputs@),
            all.len() == b,
            forall|j: int| 0 <= j < b ==> ints((#[trigger] all@[j])@) == ft_input(ins, j as nat),
            b == 0 ==> ints(out@) == seq![0int, 0, 0, 0, 0, 0, 0, 0],
            b > 0 ==> ints(out@) == perm(ft_input(ins, (b - 1) as nat)),
    {
        let input: [u64; 8] = if b < n {
            block_inputs[b]
        } else {
            out
        };
        assert(b < n ==> ins[b as int] == ints(block_inputs@[b as int]@));
        all.push(input);
        out = native_permute(input);
    }
    assert(states(all@) =~= ft_inputs(ins));
    chain_rows(&all)
}

/// The inputs follow the schedule: the first block starts from a zero capacity, each block carries
/// the capacity of the one before with its count added, and a block of count zero carries the rate
/// too.
pub open spec fn follows(inputs: Seq<Seq<int>>, counts: Seq<u8>) -> bool {
    &&& inputs.len() > 0
    &&& cong(inputs[0][4], count_of(counts, 0))
    &&& red(inputs[0][5]) == 0 && red(inputs[0][6]) == 0 && red(inputs[0][7]) == 0
    &&& forall|b: int|
        #![trigger inputs[b]]
        1 <= b < inputs.len() ==> link_ok(perm(inputs[b - 1]), inputs[b], count_of(counts, b))
}

/// The step from the output of a block to the input of the next one.
pub open spec fn link_ok(out: Seq<int>, next: Seq<int>, count: int) -> bool {
    &&& cong(next[4], out[4] + count)
    &&& cong(next[5], out[5]) && cong(next[6], out[6]) && cong(next[7], out[7])
    &&& count == 0 ==> cong(next[0], out[0]) && cong(next[1], out[1]) && cong(next[2], out[2])
        && cong(next[3], out[3])
}

/// The public values are the challenges and the index elements that the outputs give.
pub open spec fn bound(air: FullTranscriptAir, inputs: Seq<Seq<int>>, pv: Seq<int>) -> bool {
    &&& forall|j: int|
        #![trigger air.binds@[j]]
        0 <= j < air.binds.len() ==> squeezed(perm(inputs[air.binds@[j] as int]), pair(pv, 2 * j))
    &&& forall|j: int|
        #![trigger air.index_binds@[j]]
        0 <= j < air.index_binds.len() ==> cong(
            perm(inputs[air.index_binds@[j].0 as int])[air.index_binds@[j].1 as int],
            pv[2 * air.binds.len() + j],
        )
}

/// What the periodic columns hold at row `r`.
proof fn lemma_ft_env(air: FullTranscriptAir, t: Seq<Seq<int>>, pv: Seq<int>, r: int)
    requires
        air.wf(),
        0 <= r < air.padded_z() * 32,
    ensures
        ({
            let p = row_env(t, air.cols_z(), pv, r).per;
            &&& round_row(p, r % 32)
            &&& forall|j: int|
                11 <= j < 15 + air.binds.len() + air.index_binds.len() ==> #[trigger] p[j]
                    == air.col(j, r)
        }),
{
    let c = air.cols_z();
    let p = row_env(t, c, pv, r).per;
    let h = air.padded_z() * 32;
    vstd::arithmetic::div_mod::lemma_small_mod(r as nat, h as nat);
    assert forall|j: int| 0 <= j < ROUND_COLS implies #[trigger] p[j] == round_col(j, r % 32) by {
        assert(c[j].len() == 32);
    }
    assert forall|j: int|
        11 <= j < 15 + air.binds.len() + air.index_binds.len() implies #[trigger] p[j] == air.col(
        j,
        r,
    ) by {
        if j == 11 {
            assert(c[11].len() == 32);
        } else {
            assert(c[j].len() == h);
        }
    }
}

/// The constraints at a row, group by group.
pub proof fn lemma_ft_holds(env: Env, nb: int, ib: Seq<(usize, usize)>, r: int, h: int)
    ensures
        holds(ft_polys(env, nb, ib), r, h) <==> {
            &&& r != h - 1 ==> vanish(round_polys(lanes(env.cur, 0), lanes(env.nxt, 0), env.per))
            &&& r == 0 ==> vanish(sponge_start(env.cur, env.per[12]))
            &&& r != h - 1 ==> vanish(sponge_link(env.cur, env.nxt, env.per))
            &&& vanish(bind_polys(env.cur, env.per, env.pis, nb))
            &&& vanish(index_bind_polys(env.cur, env.per, env.pis, nb, ib))
        },
{
    let p1 = round_polys(lanes(env.cur, 0), lanes(env.nxt, 0), env.per);
    let p2 = sponge_start(env.cur, env.per[12]);
    let p3 = sponge_link(env.cur, env.nxt, env.per);
    let p4 = bind_polys(env.cur, env.per, env.pis, nb);
    let p5 = index_bind_polys(env.cur, env.per, env.pis, nb, ib);
    let (g1, g2) = (gated(Gate::Transition, p1), gated(Gate::First, p2));
    let (g3, g4, g5) = (
        gated(Gate::Transition, p3),
        gated(Gate::Always, p4),
        gated(Gate::Always, p5),
    );
    lemma_holds_gated(Gate::Transition, p1, r, h);
    lemma_holds_gated(Gate::First, p2, r, h);
    lemma_holds_gated(Gate::Transition, p3, r, h);
    lemma_holds_gated(Gate::Always, p4, r, h);
    lemma_holds_gated(Gate::Always, p5, r, h);
    lemma_holds_concat(g1, g2, r, h);
    lemma_holds_concat(g1 + g2, g3, r, h);
    lemma_holds_concat(g1 + g2 + g3, g4, r, h);
    lemma_holds_concat(g1 + g2 + g3 + g4, g5, r, h);
}

/// The links from block to block.
proof fn lemma_sponge_link(c: Seq<int>, n: Seq<int>, p: Seq<int>, count: int)
    requires
        p[11] == 0 || p[11] == 1,
        p[13] == count,
        p[14] == (if count == 0 {
            1int
        } else {
            0int
        }),
    ensures
        vanish(sponge_link(c, n, p)) <==> (p[11] == 1 ==> link_ok(c, n, count)),
{
    let s = sponge_link(c, n, p);
    let (l, q) = (p[11], p[14]);
    lemma_one(l, n[4] - c[4] - count);
    lemma_one(l, n[5] - c[5]);
    lemma_one(l, n[6] - c[6]);
    lemma_one(l, n[7] - c[7]);
    assert(l * q == 0 || l * q == 1) by (nonlinear_arith)
        requires
            l == 0 || l == 1,
            q == 0 || q == 1,
    ;
    assert(l * q == 1 <==> l == 1 && q == 1) by (nonlinear_arith)
        requires
            l == 0 || l == 1,
            q == 0 || q == 1,
    ;
    lemma_one(l * q, n[0] - c[0]);
    lemma_one(l * q, n[1] - c[1]);
    lemma_one(l * q, n[2] - c[2]);
    lemma_one(l * q, n[3] - c[3]);
    lemma_cong_diff(n[4], c[4] + count);
    lemma_cong_diff(n[5], c[5]);
    lemma_cong_diff(n[6], c[6]);
    lemma_cong_diff(n[7], c[7]);
    lemma_cong_diff(n[0], c[0]);
    lemma_cong_diff(n[1], c[1]);
    lemma_cong_diff(n[2], c[2]);
    lemma_cong_diff(n[3], c[3]);
    if vanish(s) {
        assert(red(s[0]) == 0 && red(s[1]) == 0 && red(s[2]) == 0 && red(s[3]) == 0 && red(s[4])
            == 0 && red(s[5]) == 0 && red(s[6]) == 0 && red(s[7]) == 0);
    }
}

/// The bindings that fire at row `r`.
spec fn binds_at(air: FullTranscriptAir, row: Seq<int>, pv: Seq<int>, r: int) -> bool {
    &&& forall|j: int|
        #![trigger air.binds@[j]]
        0 <= j < air.binds.len() && r == air.binds@[j] * 32 + 31 ==> squeezed(row, pair(pv, 2 * j))
    &&& forall|j: int|
        #![trigger air.index_binds@[j]]
        0 <= j < air.index_binds.len() && r == air.index_binds@[j].0 * 32 + 31 ==> cong(
            row[air.index_binds@[j].1 as int],
            pv[2 * air.binds.len() + j],
        )
}

proof fn lemma_binds_at(air: FullTranscriptAir, t: Seq<Seq<int>>, pv: Seq<int>, r: int)
    requires
        air.wf(),
        0 <= r < air.padded_z() * 32,
    ensures
        ({
            let env = row_env(t, air.cols_z(), pv, r);
            let nb = air.binds.len() as int;
            vanish(bind_polys(env.cur, env.per, env.pis, nb)) && vanish(
                index_bind_polys(env.cur, env.per, env.pis, nb, air.index_binds@),
            ) <==> binds_at(air, env.cur, pv, r)
        }),
{
    let env = row_env(t, air.cols_z(), pv, r);
    let nb = air.binds.len() as int;
    let ni = air.index_binds.len() as int;
    lemma_ft_env(air, t, pv, r);
    let b = bind_polys(env.cur, env.per, env.pis, nb);
    let ix = index_bind_polys(env.cur, env.per, env.pis, nb, air.index_binds@);
    let row = env.cur;
    assert forall|j: int| 0 <= j < nb implies (red(#[trigger] b[2 * j]) == 0 && red(b[2 * j + 1])
        == 0 <==> (r == air.binds@[j] * 32 + 31 ==> squeezed(row, pair(pv, 2 * j)))) by {
        assert((2 * j) / 2 == j && (2 * j) % 2 == 0 && (2 * j + 1) / 2 == j && (2 * j + 1) % 2 == 1);
        let on = env.per[15 + j];
        assert(on == air.col(15 + j, r));
        lemma_one(on, row[3] - pv[2 * j]);
        lemma_one(on, row[2] - pv[2 * j + 1]);
        lemma_cong_diff(row[3], pv[2 * j]);
        lemma_cong_diff(row[2], pv[2 * j + 1]);
    }
    assert forall|j: int| 0 <= j < ni implies (red(#[trigger] ix[j]) == 0 <==> (r
        == air.index_binds@[j].0 * 32 + 31 ==> cong(
        row[air.index_binds@[j].1 as int],
        pv[2 * nb + j],
    ))) by {
        let on = env.per[15 + nb + j];
        assert(on == air.col(15 + nb + j, r));
        let lane = air.index_binds@[j].1 as int;
        lemma_one(on, row[lane] - pv[2 * nb + j]);
        lemma_cong_diff(row[lane], pv[2 * nb + j]);
    }
    if vanish(b) && vanish(ix) {
        assert forall|j: int|
            #![trigger air.binds@[j]]
            0 <= j < nb && r == air.binds@[j] * 32 + 31 implies squeezed(row, pair(pv, 2 * j)) by {
            assert(red(b[2 * j]) == 0 && red(b[2 * j + 1]) == 0);
        }
        assert forall|j: int|
            #![trigger air.index_binds@[j]]
            0 <= j < ni && r == air.index_binds@[j].0 * 32 + 31 implies cong(
            row[air.index_binds@[j].1 as int],
            pv[2 * nb + j],
        ) by {
            assert(red(ix[j]) == 0);
        }
    }
    if binds_at(air, row, pv, r) {
        assert forall|i: int| 0 <= i < 2 * nb implies red(#[trigger] b[i]) == 0 by {
            let j = i / 2;
            assert(air.binds@[j] == air.binds@[j]);
            assert(red(b[2 * j]) == 0 && red(b[2 * j + 1]) == 0);
            assert(i == 2 * j || i == 2 * j + 1);
        }
        assert forall|j: int| 0 <= j < ni implies red(#[trigger] ix[j]) == 0 by {
            assert(air.index_binds@[j] == air.index_binds@[j]);
        }
    }
}

/// Every input has eight lanes.
pub open spec fn inputs_ok(inputs: Seq<Seq<int>>) -> bool {
    forall|b: int| 0 <= b < inputs.len() ==> (#[trigger] inputs[b]).len() == 8
}

proof fn lemma_ft_row_holds(
    air: FullTranscriptAir,
    inputs: Seq<Seq<int>>,
    pv: Seq<int>,
    r: int,
)
    requires
        air.wf(),
        inputs.len() == air.padded_z(),
        inputs_ok(inputs),
        follows(inputs, air.counts@),
        0 <= r < air.padded_z() * 32,
    ensures
        ({
            let t = chain_trace(inputs);
            holds(
                ft_polys(
                    row_env(t, air.cols_z(), pv, r),
                    air.binds.len() as int,
                    air.index_binds@,
                ),
                r,
                air.padded_z() * 32,
            ) <==> binds_at(air, t[r], pv, r)
        }),
{
    let t = chain_trace(inputs);
    let h = air.padded_z() * 32;
    let env = row_env(t, air.cols_z(), pv, r);
    let (k, j) = (r / 32, r % 32);
    let input = inputs[k];
    lemma_ft_holds(env, air.binds.len() as int, air.index_binds@, r, h);
    lemma_ft_env(air, t, pv, r);
    lemma_binds_at(air, t, pv, r);
    lemma_perm_row_bound(input, j as nat);
    let (c, n, p) = (lanes(env.cur, 0), lanes(env.nxt, 0), env.per);
    assert(env.cur == perm_row(input, j as nat));
    assert(c =~= env.cur);
    let count = count_of(air.counts@, k + 1);
    assert(p[11] == air.col(11, r) && p[12] == air.col(12, r) && p[13] == air.col(13, r) && p[14]
        == air.col(14, r));
    lemma_sponge_link(env.cur, env.nxt, p, count);
    if r != h - 1 {
        assert(env.nxt == t[r + 1]);
        if j < 31 {
            assert((r + 1) / 32 == k && (r + 1) % 32 == j + 1);
            lemma_perm_row_bound(input, (j + 1) as nat);
            assert(n =~= env.nxt);
            lemma_rounds_vanish(input, p, j as nat);
        } else {
            assert((r + 1) / 32 == k + 1 && (r + 1) % 32 == 0);
            lemma_round_idle(c, n, p);
            assert(vanish(round_polys(c, n, p)));
            let next = inputs[k + 1];
            lemma_perm_step(next, 0);
            assert(env.nxt == next);
            assert(link_ok(perm(inputs[(k + 1) - 1]), inputs[k + 1], count));
        }
    }
    if r == 0 {
        lemma_perm_step(input, 0);
        let s = sponge_start(env.cur, p[12]);
        lemma_cong_diff(env.cur[4], p[12]);
        assert(red(s[0]) == 0 && red(s[1]) == 0 && red(s[2]) == 0 && red(s[3]) == 0);
    }
}

/// The trace of inputs that follow the schedule meets the constraints exactly for the challenges and
/// the index elements that its outputs give.
pub proof fn law_full_transcript_complete(
    air: FullTranscriptAir,
    inputs: Seq<Seq<int>>,
    pv: Seq<int>,
)
    requires
        air.wf(),
        inputs.len() == air.padded_z(),
        inputs_ok(inputs),
        follows(inputs, air.counts@),
    ensures
        satisfied(
            |env: Env| ft_polys(env, air.binds.len() as int, air.index_binds@),
            chain_trace(inputs),
            air.cols_z(),
            pv,
        ) <==> bound(air, inputs, pv),
{
    let t = chain_trace(inputs);
    let h = air.padded_z() * 32;
    let pc = air.cols_z();
    let polys = |env: Env| ft_polys(env, air.binds.len() as int, air.index_binds@);
    if satisfied(polys, t, pc, pv) {
        assert forall|j: int|
            #![trigger air.binds@[j]]
            0 <= j < air.binds.len() implies squeezed(
            perm(inputs[air.binds@[j] as int]),
            pair(pv, 2 * j),
        ) by {
            let b = air.binds@[j] as int;
            let r = b * 32 + 31;
            assert(holds(polys(row_env(t, pc, pv, r)), r, h));
            lemma_ft_row_holds(air, inputs, pv, r);
            assert(r / 32 == b && r % 32 == 31);
        }
        assert forall|j: int|
            #![trigger air.index_binds@[j]]
            0 <= j < air.index_binds.len() implies cong(
            perm(inputs[air.index_binds@[j].0 as int])[air.index_binds@[j].1 as int],
            pv[2 * air.binds.len() + j],
        ) by {
            let b = air.index_binds@[j].0 as int;
            let r = b * 32 + 31;
            assert(holds(polys(row_env(t, pc, pv, r)), r, h));
            lemma_ft_row_holds(air, inputs, pv, r);
            assert(r / 32 == b && r % 32 == 31);
        }
    }
    if bound(air, inputs, pv) {
        assert forall|r: int|
            #![trigger row_env(t, pc, pv, r)]
            0 <= r < t.len() implies holds(polys(row_env(t, pc, pv, r)), r, t.len() as int) by {
            lemma_ft_row_holds(air, inputs, pv, r);
            assert forall|j: int|
                #![trigger air.binds@[j]]
                0 <= j < air.binds.len() && r == air.binds@[j] * 32 + 31 implies squeezed(
                t[r],
                pair(pv, 2 * j),
            ) by {
                assert(r / 32 == air.binds@[j] && r % 32 == 31);
            }
            assert forall|j: int|
                #![trigger air.index_binds@[j]]
                0 <= j < air.index_binds.len() && r == air.index_binds@[j].0 * 32 + 31 implies cong(
                t[r][air.index_binds@[j].1 as int],
                pv[2 * air.binds.len() + j],
            ) by {
                assert(r / 32 == air.index_binds@[j].0 && r % 32 == 31);
            }
        }
    }
}

/// The inputs that a trace of `m` blocks holds: the lanes at the heads of its blocks.
pub open spec fn trace_inputs(t: Seq<Seq<int>>, m: nat) -> Seq<Seq<int>> {
    Seq::new(m, |b: int| lanes(t[32 * b], 0))
}

/// Whatever trace meets the constraints, its blocks follow the schedule, and its public values are
/// the challenges and the index elements that their outputs give.
pub proof fn law_full_transcript_sound(air: FullTranscriptAir, t: Seq<Seq<int>>, pv: Seq<int>)
    requires
        air.wf(),
        t.len() == air.padded_z() * 32,
        canonical_cells(t, 8),
        satisfied(
            |env: Env| ft_polys(env, air.binds.len() as int, air.index_binds@),
            t,
            air.cols_z(),
            pv,
        ),
    ensures
        follows(trace_inputs(t, air.padded_z() as nat), air.counts@),
        bound(air, trace_inputs(t, air.padded_z() as nat), pv),
{
    let m = air.padded_z();
    lemma_np2(air.counts.len() as int);
    let inputs = trace_inputs(t, m as nat);
    let pc = air.cols_z();
    let h = m * 32;
    let polys = |env: Env| ft_polys(env, air.binds.len() as int, air.index_binds@);
    assert forall|b: int| 0 <= b < m implies lanes(#[trigger] t[32 * b + 31], 0) == perm(
        inputs[b],
    ) by {
        let head = 32 * b;
        assert forall|j: int|
            #![trigger t[head + j]]
            1 <= j <= 31 implies lanes(t[head + j], 0) == red_seq(
            step_z(j - 1, lanes(t[head + j - 1], 0)),
        ) by {
            let r = head + j - 1;
            let e = row_env(t, pc, pv, r);
            assert(holds(polys(e), r, h));
            lemma_ft_holds(e, air.binds.len() as int, air.index_binds@, r, h);
            lemma_ft_env(air, t, pv, r);
            assert(r % 32 == j - 1);
            lemma_steps_follow(t, e, r, 8);
        }
        lemma_block(t, 0, head, 31);
    }
    let e0 = row_env(t, pc, pv, 0);
    assert(holds(polys(e0), 0, h));
    lemma_ft_holds(e0, air.binds.len() as int, air.index_binds@, 0, h);
    lemma_ft_env(air, t, pv, 0);
    assert(e0.per[12] == air.col(12, 0));
    let s = sponge_start(e0.cur, e0.per[12]);
    assert(red(s[0]) == 0 && red(s[1]) == 0 && red(s[2]) == 0 && red(s[3]) == 0);
    lemma_cong_diff(t[0][4], e0.per[12]);
    let i0 = inputs[0];
    assert(i0[4] == t[0][4] && i0[5] == t[0][5] && i0[6] == t[0][6] && i0[7] == t[0][7]);
    assert forall|b: int|
        #![trigger inputs[b]]
        1 <= b < m implies link_ok(perm(inputs[b - 1]), inputs[b], count_of(air.counts@, b)) by {
        let r = 32 * b - 1;
        let e = row_env(t, pc, pv, r);
        assert(holds(polys(e), r, h));
        lemma_ft_holds(e, air.binds.len() as int, air.index_binds@, r, h);
        lemma_ft_env(air, t, pv, r);
        assert(r % 32 == 31 && r / 32 == b - 1);
        assert(e.per[11] == air.col(11, r) && e.per[13] == air.col(13, r) && e.per[14] == air.col(
            14,
            r,
        ));
        lemma_sponge_link(t[r], t[r + 1], e.per, count_of(air.counts@, b));
        assert(32 * (b - 1) + 31 == r);
        let (o, n) = (perm(inputs[b - 1]), inputs[b]);
        assert(lanes(t[32 * (b - 1) + 31], 0) == o);
        assert forall|i: int| 0 <= i < 8 implies #[trigger] o[i] == t[r][i] && n[i] == t[r + 1][i] by {
            assert(lanes(t[r], 0)[i] == t[r][0 + i]);
            assert(lanes(t[r + 1], 0)[i] == t[r + 1][0 + i]);
        }
        assert(o[0] == t[r][0] && o[1] == t[r][1] && o[2] == t[r][2] && o[3] == t[r][3] && o[4]
            == t[r][4] && o[5] == t[r][5] && o[6] == t[r][6] && o[7] == t[r][7]);
    }
    assert forall|j: int|
        #![trigger air.binds@[j]]
        0 <= j < air.binds.len() implies squeezed(
        perm(inputs[air.binds@[j] as int]),
        pair(pv, 2 * j),
    ) by {
        let b = air.binds@[j] as int;
        let r = 32 * b + 31;
        let e = row_env(t, pc, pv, r);
        assert(holds(polys(e), r, h));
        lemma_ft_holds(e, air.binds.len() as int, air.index_binds@, r, h);
        lemma_binds_at(air, t, pv, r);
        assert(lanes(t[r], 0)[3] == t[r][3] && lanes(t[r], 0)[2] == t[r][2]);
    }
    assert forall|j: int|
        #![trigger air.index_binds@[j]]
        0 <= j < air.index_binds.len() implies cong(
        perm(inputs[air.index_binds@[j].0 as int])[air.index_binds@[j].1 as int],
        pv[2 * air.binds.len() + j],
    ) by {
        let b = air.index_binds@[j].0 as int;
        let lane = air.index_binds@[j].1 as int;
        let r = 32 * b + 31;
        let e = row_env(t, pc, pv, r);
        assert(holds(polys(e), r, h));
        lemma_ft_holds(e, air.binds.len() as int, air.index_binds@, r, h);
        lemma_binds_at(air, t, pv, r);
        assert(lanes(t[r], 0)[lane] == t[r][0 + lane]);
    }
}

} // verus!
