//! The hash of a group of elements, a block of the rate at a time: each block overwrites the rate
//! lanes and keeps the capacity of the block before.
use super::cells::{zero_cells, zeros};
use super::merkle_tile::{end_exprs, end_polys, lemma_end_polys};
use super::tiled::lemma_one;
use crate::cols::{is_pow2, lemma_np2, lemma_np2_pow2, next_power_of_two, np2, range_col, range_z};
use crate::expr::{
    cells, cur, denote, emit_all, gated, holds, lemma_holds_concat, lemma_holds_gated, nxt, per,
    pis, row_env, satisfied, vals, vanish, Constraint, Env, Expr, Gate, Trace,
};
use crate::field::{cong, ints, lemma_cong_diff, lemma_red_small, red, P};
use crate::fri_merkle::{canonical_cells, lemma_steps_follow};
use crate::gadgets::RATE;
use crate::merkle::take4;
use crate::poseidon2::{
    lanes, lemma_block, lemma_perm_row_bound, lemma_perm_step, lemma_round_idle,
    lemma_rounds_vanish, native_permute, perm, perm_row, periodic_table, red_seq, round_col,
    round_exprs, round_polys, round_row, step_z, BLOCK, ROUND_COLS, W,
};
use crate::transcript::push_block;
use vstd::prelude::*;

verus! {

/// A hash over `n_felts` elements, of which whole blocks count. The public values are the elements,
/// then the digest.
pub struct GeneralLeafHashAir {
    pub n_felts: usize,
}

/// The input of block `b`: its elements, and the capacity of the block before; zero for the first.
pub open spec fn hash_input(g: Seq<int>, b: nat) -> Seq<int>
    decreases b,
{
    let cap = if b == 0 {
        seq![0int, 0, 0, 0]
    } else {
        perm(hash_input(g, (b - 1) as nat)).subrange(4, 8)
    };
    let at = 4 * b as int;
    seq![g[at], g[at + 1], g[at + 2], g[at + 3]] + cap
}

/// The digest of the first `m` blocks.
pub open spec fn hash_digest(g: Seq<int>, m: nat) -> Seq<int> {
    take4(perm(hash_input(g, (m - 1) as nat)))
}

pub proof fn lemma_hash_input(g: Seq<int>, b: nat)
    ensures
        hash_input(g, b).len() == 8,
    decreases b,
{
    if b > 0 {
        let m = (b - 1) as nat;
        lemma_hash_input(g, m);
        lemma_perm_row_bound(hash_input(g, m), 31);
        assert(perm(hash_input(g, m)).subrange(4, 8).len() == 4);
    }
    assert(hash_input(g, b).len() == 8);
}

/// The first block starts from the public elements and a zero capacity.
pub open spec fn lh_start(env: Env) -> Seq<int> {
    Seq::new(
        8,
        |k: int|
            if k < 4 {
                env.cur[k] - env.pis[k]
            } else {
                env.cur[k]
            },
    )
}

/// Block `j / 4 + 1` absorbs its public elements.
pub open spec fn lh_absorb_z(env: Env, j: int) -> int {
    env.per[12 + j / 4] * (env.cur[j % 4] - env.pis[4 + j])
}

pub open spec fn lh_absorb(env: Env, m: int) -> Seq<int> {
    Seq::new((4 * (m - 1)) as nat, |j: int| lh_absorb_z(env, j))
}

/// The capacity carries from block to block.
pub open spec fn lh_carry(env: Env) -> Seq<int> {
    Seq::new(4, |k: int| env.per[11] * (env.nxt[4 + k] - env.cur[4 + k]))
}

/// The constraints of a hash of `m` blocks of `n` elements.
pub open spec fn lh_polys(env: Env, n: int, m: int) -> Seq<(Gate, int)> {
    gated(Gate::Transition, round_polys(lanes(env.cur, 0), lanes(env.nxt, 0), env.per)) + gated(
        Gate::First,
        lh_start(env),
    ) + gated(Gate::Always, lh_absorb(env, m)) + gated(Gate::Transition, lh_carry(env)) + gated(
        Gate::Always,
        end_polys(env, env.per[11 + m], n),
    )
}

/// Entry `r` of periodic column `j` of a hash of `m` blocks.
pub open spec fn lh_col(m: int, j: int, r: int) -> int {
    if j < 11 {
        round_col(j, r)
    } else if j == 11 {
        if r < 32 * m && r % 32 == 31 {
            1
        } else {
            0
        }
    } else if j < 11 + m {
        range_z(r, 32 * (j - 11), 32 * (j - 11) + 1)
    } else {
        range_z(r, 32 * m - 1, 32 * m)
    }
}

pub open spec fn lh_cols(m: int) -> Seq<Seq<int>> {
    Seq::new(
        (12 + m) as nat,
        |j: int|
            Seq::new(
                if j < 11 {
                    32nat
                } else {
                    np2(32 * m) as nat
                },
                |r: int| lh_col(m, j, r),
            ),
    )
}

impl GeneralLeafHashAir {
    /// There is a block, and the trace has a height.
    pub open spec fn wf(self) -> bool {
        &&& 4 <= self.n_felts
        &&& self.n_felts + 100 <= usize::MAX
        &&& np2(32 * (self.n_felts / 4)) <= usize::MAX
    }

    pub open spec fn blocks_z(self) -> int {
        self.n_felts as int / 4
    }

    pub fn n_blocks(&self) -> (r: usize)
        ensures
            r == self.blocks_z(),
    {
        self.n_felts / RATE
    }

    pub fn height(&self) -> (r: usize)
        requires
            self.wf(),
        ensures
            r == np2(32 * self.blocks_z()),
    {
        proof {
            lemma_np2(32 * self.blocks_z());
        }
        next_power_of_two(self.n_blocks() * BLOCK)
    }

    /// The column that marks the head of block `b`.
    pub fn p_absorb(&self, b: usize) -> (r: usize)
        requires
            1 <= b,
            b + 11 <= usize::MAX,
        ensures
            r == 11 + b,
    {
        12 + (b - 1)
    }

    pub fn p_term(&self) -> (r: usize)
        requires
            self.wf(),
        ensures
            r == 11 + self.blocks_z(),
    {
        12 + (self.n_blocks() - 1)
    }

    pub fn width(&self) -> (r: usize)
        ensures
            r == W,
    {
        W
    }

    pub fn num_public_values(&self) -> (r: usize)
        requires
            self.wf(),
        ensures
            r == self.n_felts + 4,
    {
        self.n_felts + 4
    }

    pub fn num_periodic_columns(&self) -> (r: usize)
        requires
            self.wf(),
        ensures
            r == 12 + self.blocks_z(),
    {
        self.p_term() + 1
    }

    pub fn periodic(&self) -> (cols: Vec<Vec<u64>>)
        requires
            self.wf(),
        ensures
            cells(cols@) == lh_cols(self.blocks_z()),
    {
        let h: usize = self.height();
        let m: usize = self.n_blocks();
        proof {
            lemma_np2(32 * self.blocks_z());
        }
        let mut cols: Vec<Vec<u64>> = periodic_table();
        let mut last: Vec<u64> = Vec::new();
        for r in 0..h
            invariant
                m == self.blocks_z(),
                32 * m <= usize::MAX,
                last.len() == r,
                forall|i: int| 0 <= i < r ==> #[trigger] last@[i] == lh_col(m as int, 11, i),
        {
            last.push(if r < 32 * m && r % 32 == 31 { 1 } else { 0 });
        }
        cols.push(last);
        let ghost want = lh_cols(m as int);
        proof {
            assert forall|j: int| 0 <= j < 12 implies ints((#[trigger] cols@[j])@) == want[j] by {
                assert(ints(cols@[j]@) =~= want[j]);
            }
        }
        for b in 1..m
            invariant
                m == self.blocks_z(),
                1 <= m,
                32 * m <= h,
                h == np2(32 * m),
                want == lh_cols(m as int),
                cols.len() == 11 + b,
                forall|j: int| 0 <= j < 11 + b ==> ints((#[trigger] cols@[j])@) == want[j],
        {
            let c: Vec<u64> = range_col(h, b * BLOCK, b * BLOCK + 1);
            assert(ints(c@) =~= want[11 + b]);
            cols.push(c);
        }
        let at: usize = (m - 1) * BLOCK + BLOCK - 1;
        let c: Vec<u64> = range_col(h, at, at + 1);
        assert(ints(c@) =~= want[11 + m]);
        cols.push(c);
        assert(cells(cols@) =~= want);
        cols
    }

    pub fn eval(&self) -> (r: Vec<Constraint>)
        requires
            self.wf(),
        ensures
            forall|env: Env|
                #[trigger] denote(r@, env) == lh_polys(env, self.n_felts as int, self.blocks_z()),
    {
        let m: usize = self.n_blocks();
        let mut start: Vec<Expr> = Vec::new();
        for k in 0..8
            invariant
                start.len() == k,
                forall|j: int, env: Env|
                    0 <= j < k ==> (#[trigger] start@[j].val(env)) == lh_start(env)[j],
        {
            if k < 4 {
                start.push(cur(k).minus(&pis(k)));
            } else {
                start.push(cur(k));
            }
        }
        let mut absorb: Vec<Expr> = Vec::new();
        for j in 0..4 * (m - 1)
            invariant
                m == self.blocks_z(),
                self.wf(),
                absorb.len() == j,
                forall|i: int, env: Env|
                    0 <= i < j ==> (#[trigger] absorb@[i].val(env)) == lh_absorb_z(env, i),
        {
            let on: Expr = per(self.p_absorb(j / 4 + 1));
            absorb.push(on.times(&cur(j % 4).minus(&pis(4 + j))));
        }
        let mut carry: Vec<Expr> = Vec::new();
        let last: Expr = per(11);
        for k in 0..4
            invariant
                carry.len() == k,
                forall|env: Env| #[trigger] last.val(env) == env.per[11],
                forall|j: int, env: Env|
                    0 <= j < k ==> (#[trigger] carry@[j].val(env)) == lh_carry(env)[j],
        {
            carry.push(last.times(&nxt(4 + k).minus(&cur(4 + k))));
        }
        let mut out: Vec<Constraint> = Vec::new();
        emit_all(&mut out, Gate::Transition, &round_exprs(0));
        emit_all(&mut out, Gate::First, &start);
        emit_all(&mut out, Gate::Always, &absorb);
        emit_all(&mut out, Gate::Transition, &carry);
        emit_all(&mut out, Gate::Always, &end_exprs(&per(self.p_term()), self.n_felts));
        proof {
            assert forall|env: Env|
                #[trigger] denote(out@, env) == lh_polys(env, self.n_felts as int, self.blocks_z()) by {
                assert(vals(start@, env) =~= lh_start(env));
                assert(vals(absorb@, env) =~= lh_absorb(env, m as int));
                assert(vals(carry@, env) =~= lh_carry(env));
                assert(denote(out@, env) =~= lh_polys(env, self.n_felts as int, m as int));
            }
        }
        out
    }
}

/// Row `r` of the trace of a hash of `m` blocks; rows beyond the blocks are zero.
pub open spec fn lh_row(g: Seq<int>, m: int, r: int) -> Seq<int> {
    if r < 32 * m {
        perm_row(hash_input(g, (r / 32) as nat), (r % 32) as nat)
    } else {
        zeros(8)
    }
}

pub open spec fn lh_trace(g: Seq<int>, m: int) -> Seq<Seq<int>> {
    Seq::new(np2(32 * m) as nat, |r: int| lh_row(g, m, r))
}

/// Fills the trace of a hash.
pub fn build_general_leaf_trace(n_felts: usize, group: &[u64]) -> (t: Trace)
    requires
        (GeneralLeafHashAir { n_felts }).wf(),
        group@.len() >= 4 * (n_felts / 4),
    ensures
        cells(t@) == lh_trace(ints(group@), n_felts as int / 4),
{
    let air: GeneralLeafHashAir = GeneralLeafHashAir { n_felts };
    let m: usize = air.n_blocks();
    let h: usize = air.height();
    let ghost g = ints(group@);
    proof {
        lemma_np2(32 * m);
    }
    let mut t: Trace = Vec::new();
    let mut prev: [u64; 8] = [0; 8];
    for b in 0..m
        invariant
            g == ints(group@),
            4 * m <= group@.len(),
            t.len() == 32 * b,
            b == 0 ==> prev@ == seq![0u64, 0, 0, 0, 0, 0, 0, 0],
            b > 0 ==> ints(prev@) == perm(hash_input(g, (b - 1) as nat)),
            forall|i: int| 0 <= i < 32 * b ==> ints((#[trigger] t@[i])@) == lh_row(g, m as int, i),
    {
        let input: [u64; 8] = [
            group[4 * b],
            group[4 * b + 1],
            group[4 * b + 2],
            group[4 * b + 3],
            prev[4],
            prev[5],
            prev[6],
            prev[7],
        ];
        proof {
            let z = ints(prev@);
            if b > 0 {
                let cap = perm(hash_input(g, (b - 1) as nat)).subrange(4, 8);
                assert(cap[0] == z[4] && cap[1] == z[5] && cap[2] == z[6] && cap[3] == z[7]);
            }
            assert(ints(input@) =~= hash_input(g, b as nat));
        }
        let ghost before = t@;
        push_block(&mut t, input);
        proof {
            assert forall|i: int|
                0 <= i < 32 * (b + 1) implies ints((#[trigger] t@[i])@) == lh_row(g, m as int, i) by {
                if i < 32 * b {
                    assert(t@[i] == before[i]);
                } else {
                    let r = i - 32 * b;
                    assert(t@[before.len() + r] == t@[i]);
                    assert(i / 32 == b && i % 32 == r);
                }
            }
        }
        prev = native_permute(input);
    }
    for r in 32 * m..h
        invariant
            32 * m <= h,
            t.len() == r,
            forall|i: int| 0 <= i < r ==> ints((#[trigger] t@[i])@) == lh_row(g, m as int, i),
    {
        t.push(zero_cells(8));
    }
    assert(cells(t@) =~= lh_trace(g, m as int));
    t
}

/// What the periodic columns hold at row `r`.
proof fn lemma_lh_env(t: Seq<Seq<int>>, pv: Seq<int>, m: int, r: int)
    requires
        1 <= m,
        0 <= r < np2(32 * m),
    ensures
        ({
            let p = row_env(t, lh_cols(m), pv, r).per;
            &&& round_row(p, r % 32)
            &&& forall|j: int| 11 <= j < 12 + m ==> #[trigger] p[j] == lh_col(m, j, r)
        }),
{
    let c = lh_cols(m);
    let p = row_env(t, c, pv, r).per;
    let h = np2(32 * m);
    vstd::arithmetic::div_mod::lemma_small_mod(r as nat, h as nat);
    assert forall|j: int| 0 <= j < ROUND_COLS implies #[trigger] p[j] == round_col(j, r % 32) by {
        assert(c[j].len() == 32);
    }
    assert forall|j: int| 11 <= j < 12 + m implies #[trigger] p[j] == lh_col(m, j, r) by {
        assert(c[j].len() == h);
    }
}

/// What the constraints demand at row `r`.
pub open spec fn lh_demand(env: Env, n: int, m: int, r: int, last: bool) -> bool {
    &&& !last ==> vanish(round_polys(lanes(env.cur, 0), lanes(env.nxt, 0), env.per))
    &&& r % 32 == 0 && r < 32 * m ==> forall|k: int|
        0 <= k < 4 ==> cong(#[trigger] env.pis[4 * (r / 32) + k], env.cur[k])
    &&& r == 0 ==> forall|k: int| 4 <= k < 8 ==> red(#[trigger] env.cur[k]) == 0
    &&& !last && r < 32 * m && r % 32 == 31 ==> forall|k: int|
        4 <= k < 8 ==> cong(#[trigger] env.nxt[k], env.cur[k])
    &&& r == 32 * m - 1 ==> forall|k: int| 0 <= k < 4 ==> cong(#[trigger] env.pis[n + k], env.cur[k])
}

proof fn lemma_lh_start(env: Env)
    ensures
        vanish(lh_start(env)) <==> (forall|k: int|
            0 <= k < 4 ==> cong(#[trigger] env.pis[k], env.cur[k])) && (forall|k: int|
            4 <= k < 8 ==> red(#[trigger] env.cur[k]) == 0),
{
    let s = lh_start(env);
    assert forall|k: int| 0 <= k < 4 implies (red(#[trigger] s[k]) == 0 <==> cong(
        env.pis[k],
        env.cur[k],
    )) by {
        lemma_cong_diff(env.cur[k], env.pis[k]);
    }
    if vanish(s) {
        assert forall|k: int| 0 <= k < 4 implies cong(#[trigger] env.pis[k], env.cur[k]) by {
            assert(red(s[k]) == 0);
        }
        assert forall|k: int| 4 <= k < 8 implies red(#[trigger] env.cur[k]) == 0 by {
            assert(red(s[k]) == 0);
        }
    }
    if (forall|k: int| 0 <= k < 4 ==> cong(#[trigger] env.pis[k], env.cur[k])) && (forall|k: int|
        4 <= k < 8 ==> red(#[trigger] env.cur[k]) == 0) {
        assert forall|k: int| 0 <= k < 8 implies red(#[trigger] s[k]) == 0 by {
            assert(env.pis[k] == env.pis[k]);
            assert(env.cur[k] == env.cur[k]);
        }
    }
}

proof fn lemma_lh_absorb(env: Env, m: int, r: int)
    requires
        1 <= m,
        0 <= r,
        forall|j: int| 11 <= j < 12 + m ==> #[trigger] env.per[j] == lh_col(m, j, r),
    ensures
        vanish(lh_absorb(env, m)) <==> (r % 32 == 0 && 1 <= r / 32 < m ==> forall|k: int|
            0 <= k < 4 ==> cong(#[trigger] env.pis[4 * (r / 32) + k], env.cur[k])),
{
    let s = lh_absorb(env, m);
    let b = r / 32;
    assert forall|j: int| 0 <= j < s.len() implies (red(#[trigger] s[j]) == 0 <==> (r == 32 * (j / 4
        + 1) ==> cong(env.pis[4 + j], env.cur[j % 4]))) by {
        assert(env.per[12 + j / 4] == lh_col(m, 12 + j / 4, r));
        lemma_one(env.per[12 + j / 4], env.cur[j % 4] - env.pis[4 + j]);
        lemma_cong_diff(env.cur[j % 4], env.pis[4 + j]);
    }
    if r % 32 == 0 && 1 <= b < m {
        if vanish(s) {
            assert forall|k: int| 0 <= k < 4 implies cong(
                #[trigger] env.pis[4 * b + k],
                env.cur[k],
            ) by {
                let j = 4 * (b - 1) + k;
                assert(j / 4 == b - 1 && j % 4 == k);
                assert(red(s[j]) == 0);
            }
        }
        if forall|k: int| 0 <= k < 4 ==> cong(#[trigger] env.pis[4 * b + k], env.cur[k]) {
            assert forall|j: int| 0 <= j < s.len() implies red(#[trigger] s[j]) == 0 by {
                if r == 32 * (j / 4 + 1) {
                    assert(4 + j == 4 * b + j % 4);
                    assert(cong(env.pis[4 * b + j % 4], env.cur[j % 4]));
                }
            }
        }
    } else {
        assert forall|j: int| 0 <= j < s.len() implies red(#[trigger] s[j]) == 0 by {}
    }
}

proof fn lemma_lh_carry(env: Env, on: bool)
    requires
        env.per[11] == (if on {
            1int
        } else {
            0int
        }),
    ensures
        vanish(lh_carry(env)) <==> (on ==> forall|k: int|
            4 <= k < 8 ==> cong(#[trigger] env.nxt[k], env.cur[k])),
{
    let s = lh_carry(env);
    assert forall|k: int| 0 <= k < 4 implies (red(#[trigger] s[k]) == 0 <==> (on ==> cong(
        env.nxt[4 + k],
        env.cur[4 + k],
    ))) by {
        lemma_one(env.per[11], env.nxt[4 + k] - env.cur[4 + k]);
        lemma_cong_diff(env.nxt[4 + k], env.cur[4 + k]);
    }
    if vanish(s) && on {
        assert forall|k: int| 4 <= k < 8 implies cong(#[trigger] env.nxt[k], env.cur[k]) by {
            assert(red(s[k - 4]) == 0);
        }
    }
}

proof fn lemma_lh_holds(env: Env, n: int, m: int, r: int, h: int)
    requires
        1 <= m,
        0 <= r < h,
        32 * m <= h,
        forall|j: int| 11 <= j < 12 + m ==> #[trigger] env.per[j] == lh_col(m, j, r),
    ensures
        holds(lh_polys(env, n, m), r, h) <==> lh_demand(env, n, m, r, r == h - 1),
{
    let p1 = round_polys(lanes(env.cur, 0), lanes(env.nxt, 0), env.per);
    let (p2, p3, p4) = (lh_start(env), lh_absorb(env, m), lh_carry(env));
    let p5 = end_polys(env, env.per[11 + m], n);
    let (g1, g2) = (gated(Gate::Transition, p1), gated(Gate::First, p2));
    let (g3, g4, g5) = (
        gated(Gate::Always, p3),
        gated(Gate::Transition, p4),
        gated(Gate::Always, p5),
    );
    lemma_holds_gated(Gate::Transition, p1, r, h);
    lemma_holds_gated(Gate::First, p2, r, h);
    lemma_holds_gated(Gate::Always, p3, r, h);
    lemma_holds_gated(Gate::Transition, p4, r, h);
    lemma_holds_gated(Gate::Always, p5, r, h);
    lemma_holds_concat(g1, g2, r, h);
    lemma_holds_concat(g1 + g2, g3, r, h);
    lemma_holds_concat(g1 + g2 + g3, g4, r, h);
    lemma_holds_concat(g1 + g2 + g3 + g4, g5, r, h);
    assert(env.per[11] == lh_col(m, 11, r) && env.per[11 + m] == lh_col(m, 11 + m, r));
    lemma_lh_start(env);
    lemma_lh_absorb(env, m, r);
    lemma_lh_carry(env, r < 32 * m && r % 32 == 31);
    lemma_end_polys(env, env.per[11 + m], n);
    if r == 0 {
        assert(4 * (r / 32) == 0);
        if forall|k: int| 0 <= k < 4 ==> cong(#[trigger] env.pis[k], env.cur[k]) {
            assert forall|k: int| 0 <= k < 4 implies cong(
                #[trigger] env.pis[4 * (r / 32) + k],
                env.cur[k],
            ) by {
                assert(cong(env.pis[k], env.cur[k]));
            }
        }
        if forall|k: int| 0 <= k < 4 ==> cong(#[trigger] env.pis[4 * (r / 32) + k], env.cur[k]) {
            assert forall|k: int| 0 <= k < 4 implies cong(#[trigger] env.pis[k], env.cur[k]) by {
                assert(cong(env.pis[4 * (r / 32) + k], env.cur[k]));
            }
        }
    }
}

/// The last row of block `b` of a trace that meets the constraints holds the output of the block.
proof fn lemma_lh_block(t: Seq<Seq<int>>, pv: Seq<int>, n: int, m: int, b: nat)
    requires
        1 <= m,
        b < m,
        4 * m <= n,
        t.len() == np2(32 * m),
        canonical_cells(t, 8),
        forall|i: int| 0 <= i < 4 * m ==> 0 <= #[trigger] pv[i] < P,
        satisfied(|env: Env| lh_polys(env, n, m), t, lh_cols(m), pv),
    ensures
        lanes(t[32 * b as int + 31], 0) == perm(hash_input(pv, b)),
    decreases b,
{
    let polys = |env: Env| lh_polys(env, n, m);
    let pc = lh_cols(m);
    let h = t.len() as int;
    lemma_np2(32 * m);
    assert forall|r: int| 0 <= r < h implies lh_demand(
        #[trigger] row_env(t, pc, pv, r),
        n,
        m,
        r,
        r == h - 1,
    ) && round_row(row_env(t, pc, pv, r).per, r % 32) by {
        let e = row_env(t, pc, pv, r);
        assert(holds(polys(e), r, h));
        lemma_lh_env(t, pv, m, r);
        lemma_lh_holds(e, n, m, r, h);
    }
    let head = 32 * b as int;
    let e = row_env(t, pc, pv, head);
    assert(head / 32 == b && head % 32 == 0);
    let input = hash_input(pv, b);
    lemma_hash_input(pv, b);
    if b > 0 {
        lemma_lh_block(t, pv, n, m, (b - 1) as nat);
        let f = row_env(t, pc, pv, head - 1);
        assert((head - 1) % 32 == 31);
        assert(32 * (b - 1) + 31 == head - 1);
        lemma_hash_input(pv, (b - 1) as nat);
        lemma_perm_row_bound(hash_input(pv, (b - 1) as nat), 31);
    }
    assert forall|i: int| 0 <= i < 8 implies #[trigger] lanes(t[head], 0)[i] == input[i] by {
        assert(0 <= t[head][i] < P);
        lemma_red_small(t[head][i]);
        if i < 4 {
            assert(cong(e.pis[4 * (head / 32) + i], e.cur[i]));
            assert(0 <= pv[4 * b + i] < P);
            lemma_red_small(pv[4 * b + i]);
        } else if b == 0 {
            assert(red(e.cur[i]) == 0);
        } else {
            let f = row_env(t, pc, pv, head - 1);
            assert(cong(f.nxt[i], f.cur[i]));
            assert(0 <= t[head - 1][i] < P);
            lemma_red_small(t[head - 1][i]);
            assert(lanes(t[head - 1], 0)[i] == t[head - 1][0 + i]);
        }
    }
    assert(lanes(t[head], 0) =~= input);
    assert forall|j: int|
        #![trigger t[head + j]]
        1 <= j <= 31 implies lanes(t[head + j], 0) == red_seq(
        step_z(j - 1, lanes(t[head + j - 1], 0)),
    ) by {
        let r = head + j - 1;
        let d = row_env(t, pc, pv, r);
        assert(r % 32 == j - 1);
        lemma_steps_follow(t, d, r, 8);
    }
    lemma_block(t, 0, head, 31);
}

/// Whatever trace meets the constraints, its public digest is the hash of its public elements.
pub proof fn law_leaf_hash_sound(t: Seq<Seq<int>>, pv: Seq<int>, n: int, m: int)
    requires
        1 <= m,
        4 * m <= n,
        t.len() == np2(32 * m),
        canonical_cells(t, 8),
        forall|i: int| 0 <= i < 4 * m ==> 0 <= #[trigger] pv[i] < P,
        satisfied(|env: Env| lh_polys(env, n, m), t, lh_cols(m), pv),
    ensures
        forall|k: int| 0 <= k < 4 ==> cong(#[trigger] pv[n + k], hash_digest(pv, m as nat)[k]),
{
    let polys = |env: Env| lh_polys(env, n, m);
    let pc = lh_cols(m);
    let h = t.len() as int;
    lemma_np2(32 * m);
    let r = 32 * m - 1;
    let e = row_env(t, pc, pv, r);
    assert(holds(polys(e), r, h));
    lemma_lh_env(t, pv, m, r);
    lemma_lh_holds(e, n, m, r, h);
    lemma_lh_block(t, pv, n, m, (m - 1) as nat);
    assert forall|k: int| 0 <= k < 4 implies cong(
        #[trigger] pv[n + k],
        hash_digest(pv, m as nat)[k],
    ) by {
        assert(cong(e.pis[n + k], e.cur[k]));
        assert(lanes(t[r], 0)[k] == t[r][0 + k]);
    }
}

proof fn lemma_lh_row_holds(g: Seq<int>, leaf: Seq<int>, m: int, r: int)
    requires
        1 <= m,
        g.len() == 4 * m,
        leaf.len() == 4,
        0 <= r < 32 * m,
        np2(32 * m) == 32 * m,
    ensures
        holds(
            lh_polys(row_env(lh_trace(g, m), lh_cols(m), g + leaf, r), 4 * m, m),
            r,
            32 * m,
        ) <==> (r == 32 * m - 1 ==> forall|k: int|
            0 <= k < 4 ==> cong(#[trigger] leaf[k], hash_digest(g, m as nat)[k])),
{
    let t = lh_trace(g, m);
    let pv = g + leaf;
    let h = 32 * m;
    let env = row_env(t, lh_cols(m), pv, r);
    let (b, j) = (r / 32, r % 32);
    let input = hash_input(g, b as nat);
    lemma_lh_env(t, pv, m, r);
    lemma_lh_holds(env, 4 * m, m, r, h);
    lemma_hash_input(g, b as nat);
    lemma_perm_row_bound(input, j as nat);
    let (c, n) = (lanes(env.cur, 0), lanes(env.nxt, 0));
    assert(env.cur == perm_row(input, j as nat));
    assert(c =~= env.cur);
    lemma_red_small(0);
    if j == 0 {
        lemma_perm_step(input, 0);
        assert(env.cur == input);
        assert forall|k: int| 0 <= k < 4 implies cong(
            #[trigger] env.pis[4 * (r / 32) + k],
            env.cur[k],
        ) by {
            assert(pv[4 * b + k] == g[4 * b + k]);
        }
    }
    if r != h - 1 {
        assert(env.nxt == t[r + 1]);
        if j < 31 {
            assert((r + 1) / 32 == b && (r + 1) % 32 == j + 1);
            lemma_perm_row_bound(input, (j + 1) as nat);
            assert(n =~= env.nxt);
            lemma_rounds_vanish(input, env.per, j as nat);
        } else {
            assert((r + 1) / 32 == b + 1 && (r + 1) % 32 == 0);
            lemma_round_idle(c, n, env.per);
            assert(vanish(round_polys(c, n, env.per)));
            let next = hash_input(g, (b + 1) as nat);
            lemma_hash_input(g, (b + 1) as nat);
            lemma_perm_step(next, 0);
            assert(env.nxt == next);
            let cap = perm(input).subrange(4, 8);
            assert forall|k: int| 4 <= k < 8 implies cong(#[trigger] env.nxt[k], env.cur[k]) by {
                assert(next[k] == cap[k - 4]);
            }
        }
    }
    if r == h - 1 {
        assert(b == m - 1 && j == 31);
        let d = hash_digest(g, m as nat);
        assert forall|k: int| 0 <= k < 4 implies env.cur[k] == #[trigger] d[k] && env.pis[4 * m + k]
            == leaf[k] by {}
        if forall|k: int| 0 <= k < 4 ==> cong(#[trigger] leaf[k], d[k]) {
            assert forall|k: int| 0 <= k < 4 implies cong(#[trigger] env.pis[4 * m + k], env.cur[k]) by {
                assert(cong(leaf[k], d[k]));
            }
        }
        if forall|k: int| 0 <= k < 4 ==> cong(#[trigger] env.pis[4 * m + k], env.cur[k]) {
            assert forall|k: int| 0 <= k < 4 implies cong(#[trigger] leaf[k], d[k]) by {
                assert(cong(env.pis[4 * m + k], env.cur[k]));
            }
        }
    }
}

/// The trace of a hash of a power-of-two number of blocks meets the constraints exactly for the
/// digest.
pub proof fn law_leaf_hash_complete(g: Seq<int>, leaf: Seq<int>, m: int)
    requires
        is_pow2(m),
        1 <= m,
        g.len() == 4 * m,
        leaf.len() == 4,
    ensures
        satisfied(
            |env: Env| lh_polys(env, 4 * m, m),
            lh_trace(g, m),
            lh_cols(m),
            g + leaf,
        ) <==> forall|k: int| 0 <= k < 4 ==> cong(#[trigger] leaf[k], hash_digest(g, m as nat)[k]),
{
    let t = lh_trace(g, m);
    let pc = lh_cols(m);
    let pv = g + leaf;
    let h = 32 * m;
    let polys = |env: Env| lh_polys(env, 4 * m, m);
    assert(is_pow2(32 * m)) by {
        reveal_with_fuel(is_pow2, 6);
        assert(32 * m / 2 == 16 * m && 16 * m / 2 == 8 * m && 8 * m / 2 == 4 * m && 4 * m / 2 == 2
            * m && 2 * m / 2 == m);
    }
    lemma_np2_pow2(32 * m);
    if satisfied(polys, t, pc, pv) {
        assert(holds(polys(row_env(t, pc, pv, h - 1)), h - 1, h));
        lemma_lh_row_holds(g, leaf, m, h - 1);
    }
    if forall|k: int| 0 <= k < 4 ==> cong(#[trigger] leaf[k], hash_digest(g, m as nat)[k]) {
        assert forall|r: int|
            #![trigger row_env(t, pc, pv, r)]
            0 <= r < t.len() implies holds(polys(row_env(t, pc, pv, r)), r, t.len() as int) by {
            lemma_lh_row_holds(g, leaf, m, r);
        }
    }
}

} // verus!
