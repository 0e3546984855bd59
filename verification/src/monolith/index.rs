//! What the index of a query determines: its evaluation point from the sampled element, its fold
//! points, and the entry of a Merkle cap that its high bits select.
use super::cells::{
    acc_cells, acc_row, acc_z, bit_cells, bit_row, extend, high_run, point_z, split_cells,
    split_row,
};
use super::parts::DP_LOG_HEIGHT;
use super::query::{repeat_row, repeated, ROWS};
use crate::bits::{
    bit_at, bit_of, lemma_low, lemma_low_whole, lemma_same_bits, lemma_shr_add, low_z, shr_z,
};
use crate::expr::{
    cells, cst, cur, denote, emit, emit_all, Constraint, Env, Expr, gated, Gate, holds,
    lemma_holds_concat, lemma_holds_gated, lemma_holds_push, pis, row_env, satisfied, Trace, vals,
    vanish,
};
use crate::field::{
    cong, exp_power_of_2, fmul, ints, lemma_cong_add, lemma_cong_diff, lemma_cong_mul,
    lemma_cong_sub, lemma_red_bound, lemma_red_red, lemma_red_small, pow2k, red, two_adic_gen,
    two_adic_generator, GENERATOR, P,
};
use crate::gadget_laws::{
    law_bit_range, law_canonical_bits, lemma_deep_chain, lemma_deep_complete, lemma_number,
    lemma_recon, number,
};
use crate::gadgets::{
    bit_exprs, bit_z, bits_z, canon_exprs, canon_polys, deep_exprs, deep_polys, high_z, recon_expr,
    recon_z,
};
use vstd::arithmetic::power2::{lemma2_to64, lemma_pow2_unfold, pow2};
use vstd::prelude::*;

verus! {

// The evaluation point of a sampled element.

/// Columns: the element, its bits, the products over its high bits, the products over its low bits.
pub const IB_B: usize = 1;

pub const IB_Q: usize = 65;

pub const IB_ACC: usize = 96;

pub const IB_WIDTH: usize = 106;

/// A sampled element, decomposed canonically, and the evaluation point of its low bits. The public
/// values are the element and the point.
pub struct IndexBindAir;

pub open spec fn ib_polys(env: Env) -> Seq<(Gate, int)> {
    (gated(Gate::First, canon_polys(env.cur, 0, 1, 65)) + gated(
        Gate::First,
        deep_polys(env.cur, 1, 96, 10),
    )).push((Gate::First, env.pis[0] - env.cur[0])).push(
        (Gate::First, env.pis[1] - (GENERATOR as int) * env.cur[105]),
    )
}

impl IndexBindAir {
    pub fn width(&self) -> (r: usize)
        ensures
            r == IB_WIDTH,
    {
        IB_WIDTH
    }

    pub fn num_public_values(&self) -> (r: usize)
        ensures
            r == 2,
    {
        2
    }

    pub fn eval(&self) -> (r: Vec<Constraint>)
        ensures
            forall|env: Env| #[trigger] denote(r@, env) == ib_polys(env),
    {
        let mut out: Vec<Constraint> = Vec::new();
        emit_all(&mut out, Gate::First, &canon_exprs(0, IB_B, IB_Q));
        emit_all(&mut out, Gate::First, &deep_exprs(IB_B, IB_ACC, DP_LOG_HEIGHT));
        emit(&mut out, Gate::First, pis(0).minus(&cur(0)));
        let x: Expr = cst(GENERATOR).times(&cur(IB_ACC + DP_LOG_HEIGHT - 1));
        emit(&mut out, Gate::First, pis(1).minus(&x));
        proof {
            assert forall|env: Env| #[trigger] denote(out@, env) == ib_polys(env) by {
                assert(denote(out@, env) =~= ib_polys(env));
            }
        }
        out
    }
}

/// The row of an element.
pub open spec fn ib_row(felt: int) -> Seq<int> {
    split_cells(felt) + acc_cells(red(felt), 10)
}

/// Fills the trace of a sampled element; also its evaluation point.
pub fn ib_build_trace(index_felt: u64) -> (r: (Trace, u64))
    ensures
        cells(r.0@) == repeated(ib_row(index_felt as int), ROWS as int),
        r.1 == point_z(red(index_felt as int), 10),
{
    let mut row: Vec<u64> = split_row(index_felt);
    let (acc, x) = acc_row(index_felt % P, DP_LOG_HEIGHT);
    extend(&mut row, &acc);
    (repeat_row(&row, ROWS), x)
}

proof fn lemma_ib_holds(env: Env, r: int, h: int)
    ensures
        holds(ib_polys(env), r, h) <==> (r == 0 ==> {
            &&& vanish(canon_polys(env.cur, 0, 1, 65))
            &&& vanish(deep_polys(env.cur, 1, 96, 10))
            &&& cong(env.pis[0], env.cur[0])
            &&& cong(env.pis[1], (GENERATOR as int) * env.cur[105])
        }),
{
    let (p1, p2) = (canon_polys(env.cur, 0, 1, 65), deep_polys(env.cur, 1, 96, 10));
    let (g1, g2) = (gated(Gate::First, p1), gated(Gate::First, p2));
    let l0 = (Gate::First, env.pis[0] - env.cur[0]);
    let l1 = (Gate::First, env.pis[1] - (GENERATOR as int) * env.cur[105]);
    lemma_holds_gated(Gate::First, p1, r, h);
    lemma_holds_gated(Gate::First, p2, r, h);
    lemma_holds_concat(g1, g2, r, h);
    lemma_holds_push(g1 + g2, l0, r, h);
    lemma_holds_push((g1 + g2).push(l0), l1, r, h);
    lemma_cong_diff(env.pis[0], env.cur[0]);
    lemma_cong_diff(env.pis[1], (GENERATOR as int) * env.cur[105]);
}

/// Whatever trace meets the constraints, the public point is the evaluation point of the canonical
/// bits of the public element: a prover has no choice of bits.
pub proof fn law_index_bind_sound(t: Seq<Seq<int>>, felt: int, x: int)
    requires
        t.len() > 0,
        satisfied(|env: Env| ib_polys(env), t, Seq::empty(), seq![felt, x]),
    ensures
        red(x) == point_z(red(felt), 10),
{
    let pv = seq![felt, x];
    let polys = |env: Env| ib_polys(env);
    let env = row_env(t, Seq::empty(), pv, 0);
    let h = t.len() as int;
    assert(holds(polys(env), 0, h));
    lemma_ib_holds(env, 0, h);
    let row = t[0];
    law_canonical_bits(row, 0, 1, 65);
    let v = red(felt);
    assert(red(row[0]) == v);
    assert forall|j: int| 0 <= j < 10 implies red(#[trigger] row[1 + j]) == bit_of(v, j) by {}
    lemma_deep_chain(row, 1, 96, 10, v, 9);
    lemma_cong_mul(GENERATOR as int, GENERATOR as int, row[105], acc_z(v, 10, 10));
}

/// The cells of a canonical decomposition meet its constraints.
pub proof fn lemma_canon_complete(row: Seq<int>, x: int, b: int, q: int, felt: int)
    requires
        row[x] == felt,
        forall|i: int| 0 <= i < 64 ==> #[trigger] row[b + i] == bit_of(red(felt), i),
        forall|k: int| 0 <= k < 31 ==> #[trigger] row[q + k] == high_run(red(felt), (k + 1) as nat),
    ensures
        vanish(canon_polys(row, x, b, q)),
{
    let v = red(felt);
    lemma_red_bound(felt);
    lemma_red_red(felt);
    lemma_red_small(0);
    lemma2_to64();
    vstd::arithmetic::power2::lemma2_to64_rest();
    let c = canon_polys(row, x, b, q);
    lemma_recon_bits(row, b, v, 64);
    lemma_recon_bits(row, b, v, 32);
    lemma_low_whole(v, 64);
    lemma_cong_diff(row[x], recon_z(row, b, 64));
    lemma_high_run(v, 31);
    lemma_low(v, 32);
    assert forall|i: int| 0 <= i < c.len() implies red(#[trigger] c[i]) == 0 by {
        if i < 64 {
            let t = row[b + i];
            assert(t == 0 || t == 1);
            assert(bit_z(t) == 0) by (nonlinear_arith)
                requires
                    t == 0 || t == 1,
            ;
        } else if i == 64 {
        } else if i < 96 {
            let k = i - 65;
            assert(c[i] == high_z(row, b, q, k));
            assert(row[b + (33 + k)] == bit_of(v, 33 + k));
            assert(row[q + k] == high_run(v, (k + 1) as nat));
            if k == 0 {
                assert(row[b + 32] == bit_of(v, 32));
                assert(high_run(v, 0) == bit_of(v, 32));
            } else {
                assert(row[q + (k - 1)] == high_run(v, k as nat));
            }
        } else {
            assert(row[q + 30] == high_run(v, 31));
            let (u, w) = (row[q + 30], recon_z(row, b, 32));
            if u != 0 {
                assert(u == 1);
                assert(shr_z(v, 32) == pow2(32) - 1);
                assert(shr_z(v, 32) * pow2(32) == (pow2(32) - 1) * pow2(32));
                assert(w == 0);
            }
            assert(u * w == 0) by (nonlinear_arith)
                requires
                    u == 0 || w == 0,
            ;
        }
    }
}

/// A sum of weighted bits is the number they make up.
pub proof fn lemma_recon_bits(row: Seq<int>, b: int, v: int, n: nat)
    requires
        forall|i: int| 0 <= i < n ==> #[trigger] row[b + i] == bit_of(v, i),
    ensures
        recon_z(row, b, n) == low_z(v, n),
    decreases n,
{
    if n > 0 {
        lemma_recon_bits(row, b, v, (n - 1) as nat);
        assert(row[b + (n - 1)] == bit_of(v, n - 1));
    }
}

/// The product over the high bits is a bit, and where it is set so are they all.
proof fn lemma_high_run(v: int, k: nat)
    requires
        0 <= v,
    ensures
        high_run(v, k) == 0 || high_run(v, k) == 1,
        high_run(v, k) == 1 ==> low_z(shr_z(v, 32), k + 1) == pow2(k + 1) - 1,
        k == 31 && v < pow2(64) && high_run(v, k) == 1 ==> shr_z(v, 32) == pow2(32) - 1,
    decreases k,
{
    lemma2_to64();
    lemma_shr_add(v, 32, k);
    let s = shr_z(v, 32);
    assert(bit_of(s, k as int) == bit_of(v, (32 + k) as int));
    lemma_pow2_unfold(k + 1);
    if k > 0 {
        let j = (k - 1) as nat;
        lemma_high_run(v, j);
        let (x, y) = (high_run(v, j), bit_of(v, (32 + k) as int));
        assert(x * y == 0 || x * y == 1) by (nonlinear_arith)
            requires
                x == 0 || x == 1,
                y == 0 || y == 1,
        ;
        assert(x * y == 1 ==> x == 1 && y == 1) by (nonlinear_arith)
            requires
                x == 0 || x == 1,
                y == 0 || y == 1,
        ;
        assert(1 * pow2(k) == pow2(k));
    } else {
        assert(low_z(s, 0) == 0);
        assert(pow2(0) == 1);
        assert(bit_of(s, 0) * 1 == bit_of(s, 0));
    }
    if k == 31 && v < pow2(64) && high_run(v, k) == 1 {
        lemma_low(v, 32);
        vstd::arithmetic::power2::lemma2_to64_rest();
        assert(0 <= s < pow2(32)) by {
            if s >= 0x1_0000_0000 {
                assert(s * pow2(32) >= 0x1_0000_0000 * pow2(32)) by (nonlinear_arith)
                    requires
                        s >= 0x1_0000_0000,
                        pow2(32) >= 0,
                ;
            }
        }
        lemma_low_whole(s, 32);
    }
}

/// The trace of an element meets the constraints exactly for the element and its evaluation point.
pub proof fn law_index_bind_complete(felt: int, pv: Seq<int>)
    requires
        pv.len() == 2,
    ensures
        satisfied(
            |env: Env| ib_polys(env),
            repeated(ib_row(felt), ROWS as int),
            Seq::empty(),
            pv,
        ) <==> cong(pv[0], felt) && red(pv[1]) == point_z(red(felt), 10),
{
    let row = ib_row(felt);
    let t = repeated(row, ROWS as int);
    let h = t.len() as int;
    let polys = |env: Env| ib_polys(env);
    let v = red(felt);
    lemma_red_bound(felt);
    assert forall|i: int| 0 <= i < 64 implies #[trigger] row[1 + i] == bit_of(v, i) by {}
    assert forall|k: int| 0 <= k < 31 implies #[trigger] row[65 + k] == high_run(
        v,
        (k + 1) as nat,
    ) by {}
    assert forall|j: int| 0 <= j < 10 implies #[trigger] row[96 + j] == acc_z(
        v,
        10,
        (j + 1) as nat,
    ) by {}
    lemma_canon_complete(row, 0, 1, 65, felt);
    assert forall|i: int| 0 <= i < 10 implies #[trigger] row[1 + i] == bit_of(v, i) by {}
    lemma_deep_complete(row, 1, 96, 10, v);
    assert(row[105] == acc_z(v, 10, 10));
    assert forall|r: int|
        #![trigger row_env(t, Seq::empty(), pv, r)]
        0 <= r < h implies (holds(polys(row_env(t, Seq::empty(), pv, r)), r, h) <==> (r == 0
        ==> cong(pv[0], felt) && red(pv[1]) == point_z(v, 10))) by {
        lemma_ib_holds(row_env(t, Seq::empty(), pv, r), r, h);
    }
    if satisfied(polys, t, Seq::empty(), pv) {
        assert(holds(polys(row_env(t, Seq::empty(), pv, 0)), 0, h));
    }
}

// The fold points.

/// The factor that bit `m` of an index contributes to the fold point of round `r`: one below bit
/// `r + 1`.
pub open spec fn fold_factor(r: int, m: int) -> int {
    if m >= r + 1 {
        pow2k(two_adic_gen(10), (9 - m + r) as nat)
    } else {
        1
    }
}

/// The product over bits 1 to `m` of the factors of the bits that are set.
pub open spec fn fold_acc(v: int, r: int, m: nat) -> int
    decreases m,
{
    if m == 0 {
        1
    } else {
        red(
            fold_acc(v, r, (m - 1) as nat) * (if bit_of(v, m as int) == 1 {
                fold_factor(r, m as int)
            } else {
                1
            }),
        )
    }
}

/// The fold point of round `r` for index `v`.
pub open spec fn fold_point_z(v: int, r: int) -> int {
    fold_acc(v, r, 9)
}

/// The fold points of `n_rounds` rounds, each a product chain over the bits of the index. The public
/// values are the index and the points.
pub struct FoldPointAir {
    pub n_rounds: usize,
}

/// Step `m` of the chain whose cells start at `acc`.
pub open spec fn fold_chain_z(row: Seq<int>, acc: int, r: int, m: int) -> int {
    if m == 0 {
        row[acc] - 1
    } else {
        row[acc + m] - row[acc + m - 1] * (if m >= r + 1 {
            1 + row[1 + m] * (fold_factor(r, m) - 1)
        } else {
            1
        })
    }
}

/// The chain of round `r`, and that its end is the fold point and the public value.
pub open spec fn fold_chain_polys(env: Env, n_rounds: int, r: int) -> Seq<int> {
    let acc = 11 + n_rounds + 10 * r;
    Seq::new(10, |m: int| fold_chain_z(env.cur, acc, r, m)).push(
        env.cur[11 + r] - env.cur[acc + 9],
    ).push(env.cur[11 + r] - env.pis[1 + r])
}

/// The chains of the first `n` rounds.
pub open spec fn fold_chains(
    acc: Seq<(Gate, int)>,
    env: Env,
    n_rounds: int,
    n: nat,
) -> Seq<(Gate, int)>
    decreases n,
{
    if n == 0 {
        acc
    } else {
        fold_chains(acc, env, n_rounds, (n - 1) as nat) + gated(
            Gate::First,
            fold_chain_polys(env, n_rounds, n - 1),
        )
    }
}

pub open spec fn fp_polys(env: Env, n_rounds: int) -> Seq<(Gate, int)> {
    fold_chains(
        gated(Gate::First, bits_z(env.cur, 1, 10)).push(
            (Gate::First, env.cur[0] - recon_z(env.cur, 1, 10)),
        ),
        env,
        n_rounds,
        n_rounds as nat,
    ).push((Gate::First, env.cur[0] - env.pis[0]))
}

fn fold_chain_exprs(n_rounds: usize, r: usize) -> (out: Vec<Expr>)
    requires
        r < n_rounds,
        11 * n_rounds + 100 <= usize::MAX,
    ensures
        out.len() == 12,
        forall|env: Env|
            #[trigger] vals(out@, env) == fold_chain_polys(env, n_rounds as int, r as int),
{
    let g: u64 = two_adic_generator(DP_LOG_HEIGHT);
    let one: Expr = cst(1);
    let acc: usize = 11 + n_rounds + 10 * r;
    let mut out: Vec<Expr> = Vec::new();
    out.push(cur(acc).minus(&one));
    for m in 1..10
        invariant
            acc == 11 + n_rounds + 10 * r,
            r < n_rounds,
            11 * n_rounds + 100 <= usize::MAX,
            g == two_adic_gen(10),
            forall|env: Env| #[trigger] one.val(env) == 1,
            out.len() == m,
            forall|j: int, env: Env|
                0 <= j < m ==> (#[trigger] out@[j].val(env)) == fold_chain_z(
                    env.cur,
                    acc as int,
                    r as int,
                    j,
                ),
    {
        let factor: Expr = if m >= r + 1 {
            let c: u64 = exp_power_of_2(g, 9 - m + r);
            one.plus(&cur(1 + m).times(&cst(c).minus(&one)))
        } else {
            one.dup()
        };
        out.push(cur(acc + m).minus(&cur(acc + m - 1).times(&factor)));
    }
    out.push(cur(11 + r).minus(&cur(acc + 9)));
    out.push(cur(11 + r).minus(&pis(1 + r)));
    proof {
        assert forall|env: Env| #[trigger]
            vals(out@, env) == fold_chain_polys(env, n_rounds as int, r as int) by {
            assert(vals(out@, env) =~= fold_chain_polys(env, n_rounds as int, r as int));
        }
    }
    out
}

impl FoldPointAir {
    /// Every column can be addressed.
    pub open spec fn wf(self) -> bool {
        11 * self.n_rounds + 100 <= usize::MAX
    }

    pub fn w(&self) -> (r: usize)
        requires
            self.wf(),
        ensures
            r == 11 + 11 * self.n_rounds,
    {
        1 + DP_LOG_HEIGHT + self.n_rounds + self.n_rounds * DP_LOG_HEIGHT
    }

    pub fn width(&self) -> (r: usize)
        requires
            self.wf(),
        ensures
            r == 11 + 11 * self.n_rounds,
    {
        self.w()
    }

    pub fn num_public_values(&self) -> (r: usize)
        requires
            self.wf(),
        ensures
            r == 1 + self.n_rounds,
    {
        1 + self.n_rounds
    }

    pub fn eval(&self) -> (r: Vec<Constraint>)
        requires
            self.wf(),
        ensures
            forall|env: Env| #[trigger] denote(r@, env) == fp_polys(env, self.n_rounds as int),
    {
        let n: usize = self.n_rounds;
        let mut out: Vec<Constraint> = Vec::new();
        emit_all(&mut out, Gate::First, &bit_exprs(1, DP_LOG_HEIGHT));
        emit(&mut out, Gate::First, cur(0).minus(&recon_expr(1, DP_LOG_HEIGHT)));
        proof {
            assert forall|env: Env|
                #[trigger] denote(out@, env) == fold_chains(
                    gated(Gate::First, bits_z(env.cur, 1, 10)).push(
                        (Gate::First, env.cur[0] - recon_z(env.cur, 1, 10)),
                    ),
                    env,
                    n as int,
                    0,
                ) by {
                assert(denote(out@, env) =~= gated(Gate::First, bits_z(env.cur, 1, 10)).push(
                    (Gate::First, env.cur[0] - recon_z(env.cur, 1, 10)),
                ));
            }
        }
        for r in 0..n
            invariant
                n == self.n_rounds,
                self.wf(),
                forall|env: Env|
                    #[trigger] denote(out@, env) == fold_chains(
                        gated(Gate::First, bits_z(env.cur, 1, 10)).push(
                            (Gate::First, env.cur[0] - recon_z(env.cur, 1, 10)),
                        ),
                        env,
                        n as int,
                        r as nat,
                    ),
        {
            emit_all(&mut out, Gate::First, &fold_chain_exprs(n, r));
        }
        emit(&mut out, Gate::First, cur(0).minus(&pis(0)));
        out
    }
}

/// The running products of round `r`.
pub open spec fn fold_acc_cells(v: int, r: int) -> Seq<int> {
    Seq::new(10, |m: int| fold_acc(v, r, m as nat))
}

/// The running products of the first `n` rounds, one round after the other.
pub open spec fn fold_accs(v: int, n: nat) -> Seq<int>
    decreases n,
{
    if n == 0 {
        Seq::empty()
    } else {
        fold_accs(v, (n - 1) as nat) + fold_acc_cells(v, n - 1)
    }
}

/// The row of an index: the index, its bits, the fold points, the products.
pub open spec fn fp_row(v: int, n: int) -> Seq<int> {
    seq![v] + bit_cells(v, 10) + Seq::new(n as nat, |r: int| fold_point_z(v, r)) + fold_accs(
        v,
        n as nat,
    )
}

/// The running products of a round.
pub fn fold_acc_row(v: u64, r: usize) -> (out: Vec<u64>)
    ensures
        out.len() == 10,
        ints(out@) == fold_acc_cells(v as int, r as int),
{
    let g: u64 = two_adic_generator(DP_LOG_HEIGHT);
    let mut out: Vec<u64> = vec![1];
    let mut acc: u64 = 1;
    for m in 1..10
        invariant
            g == two_adic_gen(10),
            out.len() == m,
            acc == fold_acc(v as int, r as int, (m - 1) as nat),
            forall|j: int| 0 <= j < m ==> #[trigger] out@[j] == fold_acc(v as int, r as int, j as nat),
    {
        let c: u64 = if m > r && bit_at(v, m) == 1 {
            exp_power_of_2(g, 9 - m + r)
        } else {
            1
        };
        acc = fmul(acc, c);
        out.push(acc);
    }
    assert(ints(out@) =~= fold_acc_cells(v as int, r as int));
    out
}

/// Fills the trace of the fold points of an index.
pub fn fp_build_trace(n_rounds: usize, index: u64) -> (t: Trace)
    ensures
        cells(t@) == repeated(fp_row(index as int, n_rounds as int), ROWS as int),
{
    let mut row: Vec<u64> = vec![index];
    assert(ints(row@) =~= seq![index as int]);
    extend(&mut row, &bit_row(index, DP_LOG_HEIGHT));
    let mut points: Vec<u64> = Vec::new();
    let mut accs: Vec<u64> = Vec::new();
    assert(ints(accs@) =~= Seq::<int>::empty());
    for r in 0..n_rounds
        invariant
            points.len() == r,
            forall|j: int| 0 <= j < r ==> #[trigger] points@[j] == fold_point_z(index as int, j),
            ints(accs@) == fold_accs(index as int, r as nat),
    {
        let chain: Vec<u64> = fold_acc_row(index, r);
        assert(ints(chain@)[9] == chain@[9]);
        points.push(chain[9]);
        extend(&mut accs, &chain);
    }
    assert(ints(points@) =~= Seq::new(n_rounds as nat, |r: int| fold_point_z(index as int, r)));
    extend(&mut row, &points);
    extend(&mut row, &accs);
    repeat_row(&row, ROWS)
}

proof fn lemma_fold_chains_hold(
    acc: Seq<(Gate, int)>,
    env: Env,
    n_rounds: int,
    n: nat,
    h: int,
)
    ensures
        holds(fold_chains(acc, env, n_rounds, n), 0, h) <==> holds(acc, 0, h) && forall|r: int|
            #![trigger fold_chain_polys(env, n_rounds, r)]
            0 <= r < n ==> vanish(fold_chain_polys(env, n_rounds, r)),
    decreases n,
{
    if n > 0 {
        let m = (n - 1) as nat;
        lemma_fold_chains_hold(acc, env, n_rounds, m, h);
        let p = fold_chain_polys(env, n_rounds, n - 1);
        lemma_holds_gated(Gate::First, p, 0, h);
        lemma_holds_concat(fold_chains(acc, env, n_rounds, m), gated(Gate::First, p), 0, h);
    }
}

/// On a row other than the first the chains demand nothing.
proof fn lemma_fold_chains_idle(
    acc: Seq<(Gate, int)>,
    env: Env,
    n_rounds: int,
    n: nat,
    r: int,
    h: int,
)
    requires
        r != 0,
        holds(acc, r, h),
    ensures
        holds(fold_chains(acc, env, n_rounds, n), r, h),
    decreases n,
{
    if n > 0 {
        let m = (n - 1) as nat;
        lemma_fold_chains_idle(acc, env, n_rounds, m, r, h);
        let p = fold_chain_polys(env, n_rounds, n - 1);
        lemma_holds_gated(Gate::First, p, r, h);
        lemma_holds_concat(fold_chains(acc, env, n_rounds, m), gated(Gate::First, p), r, h);
    }
}

proof fn lemma_fp_holds(env: Env, n_rounds: int, r: int, h: int)
    requires
        n_rounds >= 0,
    ensures
        holds(fp_polys(env, n_rounds), r, h) <==> (r == 0 ==> {
            &&& vanish(bits_z(env.cur, 1, 10))
            &&& cong(env.cur[0], recon_z(env.cur, 1, 10))
            &&& forall|k: int|
                #![trigger fold_chain_polys(env, n_rounds, k)]
                0 <= k < n_rounds ==> vanish(fold_chain_polys(env, n_rounds, k))
            &&& cong(env.cur[0], env.pis[0])
        }),
{
    let p1 = bits_z(env.cur, 1, 10);
    let g1 = gated(Gate::First, p1);
    let l0 = (Gate::First, env.cur[0] - recon_z(env.cur, 1, 10));
    let l1 = (Gate::First, env.cur[0] - env.pis[0]);
    let base = g1.push(l0);
    let all = fold_chains(base, env, n_rounds, n_rounds as nat);
    lemma_holds_gated(Gate::First, p1, r, h);
    lemma_holds_push(g1, l0, r, h);
    lemma_holds_push(all, l1, r, h);
    lemma_cong_diff(env.cur[0], recon_z(env.cur, 1, 10));
    lemma_cong_diff(env.cur[0], env.pis[0]);
    if r == 0 {
        lemma_fold_chains_hold(base, env, n_rounds, n_rounds as nat, h);
    } else {
        lemma_fold_chains_idle(base, env, n_rounds, n_rounds as nat, r, h);
    }
}

/// The chain of a round over given bits.
proof fn lemma_fold_chain(row: Seq<int>, acc: int, r: int, v: int, m: int)
    requires
        0 <= m < 10,
        0 <= r,
        forall|j: int| 0 <= j < 10 ==> red(#[trigger] row[1 + j]) == bit_of(v, j),
        forall|j: int| 0 <= j < 10 ==> red(#[trigger] fold_chain_z(row, acc, r, j)) == 0,
    ensures
        cong(row[acc + m], fold_acc(v, r, m as nat)),
    decreases m,
{
    assert(red(fold_chain_z(row, acc, r, m)) == 0);
    if m == 0 {
        lemma_cong_diff(row[acc], 1);
    } else {
        lemma_fold_chain(row, acc, r, v, m - 1);
        let before = row[acc + (m - 1)];
        let prev = fold_acc(v, r, (m - 1) as nat);
        let (t, f) = (row[1 + m], fold_factor(r, m));
        let d = bit_of(v, m);
        assert(red(t) == d && (d == 0 || d == 1));
        let due = if m >= r + 1 {
            1 + t * (f - 1)
        } else {
            1
        };
        let g = if d == 1 {
            f
        } else {
            1
        };
        lemma_red_red(t);
        lemma_cong_mul(t, d, f - 1, f - 1);
        lemma_cong_add(1, 1, t * (f - 1), d * (f - 1));
        assert(1 + d * (f - 1) == g) by (nonlinear_arith)
            requires
                d == 0 || d == 1,
                g == (if d == 1 {
                    f
                } else {
                    1
                }),
        ;
        assert(cong(due, g));
        lemma_cong_diff(row[acc + m], before * due);
        lemma_cong_mul(before, prev, due, g);
        lemma_red_red(prev * g);
    }
}

/// Whatever trace meets the constraints, the public points are the fold points of the public index,
/// which has ten bits.
pub proof fn law_fold_points_sound(t: Seq<Seq<int>>, n_rounds: int, pv: Seq<int>, r: int)
    requires
        t.len() > 0,
        0 <= r < n_rounds,
        satisfied(|env: Env| fp_polys(env, n_rounds), t, Seq::empty(), pv),
    ensures
        red(pv[0]) < 1024,
        red(pv[1 + r]) == fold_point_z(red(pv[0]), r),
{
    let polys = |env: Env| fp_polys(env, n_rounds);
    let env = row_env(t, Seq::empty(), pv, 0);
    let h = t.len() as int;
    assert(holds(polys(env), 0, h));
    lemma_fp_holds(env, n_rounds, 0, h);
    let row = t[0];
    law_bit_range(row, 1, 10);
    lemma_number(row, 1, 10);
    lemma_recon(row, 1, 10);
    let v = number(row, 1, 10);
    lemma2_to64();
    lemma_red_small(v);
    assert(red(pv[0]) == v);
    let p = fold_chain_polys(env, n_rounds, r);
    let acc = 11 + n_rounds + 10 * r;
    assert(vanish(p));
    assert forall|j: int| 0 <= j < 10 implies red(#[trigger] fold_chain_z(row, acc, r, j)) == 0 by {
        assert(red(p[j]) == 0);
    }
    lemma_fold_chain(row, acc, r, v, 9);
    assert(red(p[10]) == 0 && red(p[11]) == 0);
    lemma_cong_diff(row[11 + r], row[acc + 9]);
    lemma_cong_diff(row[11 + r], pv[1 + r]);
    lemma_red_red(fold_acc(v, r, 8) * (if bit_of(v, 9) == 1 { fold_factor(r, 9) } else { 1 }));
}

proof fn lemma_fold_accs(v: int, n: nat, r: int, m: int)
    requires
        0 <= r < n,
        0 <= m < 10,
    ensures
        fold_accs(v, n).len() == 10 * n,
        fold_accs(v, n)[10 * r + m] == fold_acc(v, r, m as nat),
    decreases n,
{
    let k = (n - 1) as nat;
    lemma_fold_accs_len(v, k);
    if r < k {
        lemma_fold_accs(v, k, r, m);
    } else {
        assert(10 * r + m - 10 * k == m);
    }
}

proof fn lemma_fold_accs_len(v: int, n: nat)
    ensures
        fold_accs(v, n).len() == 10 * n,
    decreases n,
{
    if n > 0 {
        lemma_fold_accs_len(v, (n - 1) as nat);
    }
}

/// The trace of an index of ten bits meets the constraints exactly for the index and its fold
/// points.
pub proof fn law_fold_points_complete(v: int, n_rounds: int, pv: Seq<int>)
    requires
        0 <= v < 1024,
        n_rounds >= 0,
    ensures
        satisfied(
            |env: Env| fp_polys(env, n_rounds),
            repeated(fp_row(v, n_rounds), ROWS as int),
            Seq::empty(),
            pv,
        ) <==> red(pv[0]) == v && forall|r: int|
            0 <= r < n_rounds ==> red(#[trigger] pv[1 + r]) == fold_point_z(v, r),
{
    let row = fp_row(v, n_rounds);
    let t = repeated(row, ROWS as int);
    let h = t.len() as int;
    let polys = |env: Env| fp_polys(env, n_rounds);
    lemma2_to64();
    lemma_red_small(v);
    if satisfied(polys, t, Seq::empty(), pv) {
        let env = row_env(t, Seq::empty(), pv, 0);
        assert(holds(polys(env), 0, h));
        lemma_fp_holds(env, n_rounds, 0, h);
        assert(row[0] == v);
        assert forall|r: int| 0 <= r < n_rounds implies red(#[trigger] pv[1 + r]) == fold_point_z(
            v,
            r,
        ) by {
            law_fold_points_sound(t, n_rounds, pv, r);
        }
    }
    if red(pv[0]) == v && forall|r: int|
        0 <= r < n_rounds ==> red(#[trigger] pv[1 + r]) == fold_point_z(v, r) {
        assert forall|r: int|
            #![trigger row_env(t, Seq::empty(), pv, r)]
            0 <= r < h implies holds(polys(row_env(t, Seq::empty(), pv, r)), r, h) by {
            let env = row_env(t, Seq::empty(), pv, r);
            lemma_fp_holds(env, n_rounds, r, h);
            assert forall|i: int| 0 <= i < 10 implies #[trigger] row[1 + i] == bit_of(v, i) by {}
            lemma_bits_vanish(row, 1, 10, v);
            lemma_recon_bits(row, 1, v, 10);
            lemma_low_whole(v, 10);
            assert(row[0] == v);
            assert forall|k: int|
                #![trigger fold_chain_polys(env, n_rounds, k)]
                0 <= k < n_rounds implies vanish(fold_chain_polys(env, n_rounds, k)) by {
                lemma_fold_chain_complete(v, n_rounds, env, k);
            }
        }
    }
}

proof fn lemma_bits_vanish(row: Seq<int>, b: int, n: int, v: int)
    requires
        n >= 0,
        forall|i: int| 0 <= i < n ==> #[trigger] row[b + i] == bit_of(v, i),
    ensures
        vanish(bits_z(row, b, n)),
{
    lemma_red_small(0);
    assert forall|i: int| 0 <= i < bits_z(row, b, n).len() implies red(
        #[trigger] bits_z(row, b, n)[i],
    ) == 0 by {
        let t = row[b + i];
        assert(t == 0 || t == 1);
        assert(bit_z(t) == 0) by (nonlinear_arith)
            requires
                t == 0 || t == 1,
        ;
    }
}

proof fn lemma_fold_chain_complete(v: int, n_rounds: int, env: Env, k: int)
    requires
        0 <= k < n_rounds,
        env.cur == fp_row(v, n_rounds),
        red(env.pis[1 + k]) == fold_point_z(v, k),
    ensures
        vanish(fold_chain_polys(env, n_rounds, k)),
{
    let row = env.cur;
    let p = fold_chain_polys(env, n_rounds, k);
    let acc = 11 + n_rounds + 10 * k;
    lemma_red_small(0);
    lemma_fold_accs_len(v, n_rounds as nat);
    assert forall|m: int| 0 <= m < 10 implies #[trigger] row[acc + m] == fold_acc(
        v,
        k,
        m as nat,
    ) by {
        lemma_fold_accs(v, n_rounds as nat, k, m);
        assert(row[acc + m] == fold_accs(v, n_rounds as nat)[10 * k + m]);
    }
    assert(row[11 + k] == fold_point_z(v, k));
    assert forall|m: int| 0 <= m < 12 implies red(#[trigger] p[m]) == 0 by {
        if m == 0 {
            assert(row[acc + 0] == fold_acc(v, k, 0));
            assert(fold_acc(v, k, 0) == 1);
        } else if m < 10 {
            let before = row[acc + (m - 1)];
            assert(before == fold_acc(v, k, (m - 1) as nat));
            assert(row[acc + m] == fold_acc(v, k, m as nat));
            assert(row[1 + m] == bit_of(v, m));
            let (d, f) = (row[1 + m], fold_factor(k, m));
            let g = if d == 1 {
                f
            } else {
                1
            };
            assert(1 + d * (f - 1) == g) by (nonlinear_arith)
                requires
                    d == 0 || d == 1,
                    g == (if d == 1 {
                        f
                    } else {
                        1
                    }),
            ;
            assert(row[acc + m] == red(before * g));
            lemma_red_red(before * g);
            lemma_cong_diff(row[acc + m], before * g);
        } else if m == 10 {
            assert(row[acc + 9] == fold_acc(v, k, 9));
        } else {
            let x = fold_acc(v, k, 8) * (if bit_of(v, 9) == 1 { fold_factor(k, 9) } else { 1 });
            lemma_red_red(x);
            lemma_cong_diff(row[11 + k], env.pis[1 + k]);
        }
    }
}

// The cap entry.

/// The height of a cap: it has `2^6` entries.
pub const CM_CAP_HEIGHT: usize = 6;

/// Selects the entry of a public cap that six bits give. The public values are the cap, then the
/// entry.
pub struct CapMuxAir;

/// The product over the first `n` cells of the cell or its complement, by the bits of `e`: one where
/// the cells are the bits of `e`, zero at any other `e`.
pub open spec fn selector(row: Seq<int>, e: int, n: nat) -> int
    decreases n,
{
    if n == 0 {
        1
    } else {
        selector(row, e, (n - 1) as nat) * (if bit_of(e, n - 1) == 1 {
            row[n - 1]
        } else {
            1 - row[n - 1]
        })
    }
}

/// The sum over the first `m` entries of selector times element `l`.
pub open spec fn mux_z(row: Seq<int>, v: Seq<int>, l: int, n: nat, m: nat) -> int
    decreases m,
{
    if m == 0 {
        0
    } else {
        mux_z(row, v, l, n, (m - 1) as nat) + selector(row, m - 1, n) * v[4 * (m - 1) + l]
    }
}

pub open spec fn mux_polys(env: Env) -> Seq<int> {
    Seq::new(4, |l: int| mux_z(env.cur, env.pis, l, 6, 64) - env.pis[256 + l])
}

pub open spec fn cap_mux_polys(env: Env) -> Seq<(Gate, int)> {
    gated(Gate::First, bits_z(env.cur, 0, 6)) + gated(Gate::First, mux_polys(env))
}

fn selector_expr(e: usize, n: usize) -> (r: Expr)
    requires
        n <= 63,
    ensures
        forall|env: Env| #[trigger] r.val(env) == selector(env.cur, e as int, n as nat),
{
    let mut r: Expr = cst(1);
    for j in 0..n
        invariant
            n <= 63,
            forall|env: Env| #[trigger] r.val(env) == selector(env.cur, e as int, j as nat),
    {
        let b: Expr = cur(j);
        let f: Expr = if bit_at(e as u64, j) == 1 {
            b
        } else {
            cst(1).minus(&b)
        };
        r = r.times(&f);
    }
    r
}

fn mux_expr(l: usize, n: usize, m: usize) -> (r: Expr)
    requires
        n <= 63,
        4 * m + l <= usize::MAX,
    ensures
        forall|env: Env|
            #[trigger] r.val(env) == mux_z(env.cur, env.pis, l as int, n as nat, m as nat),
{
    let mut r: Expr = cst(0);
    for e in 0..m
        invariant
            n <= 63,
            4 * m + l <= usize::MAX,
            forall|env: Env|
                #[trigger] r.val(env) == mux_z(env.cur, env.pis, l as int, n as nat, e as nat),
    {
        r = r.plus(&selector_expr(e, n).times(&pis(4 * e + l)));
    }
    r
}

impl CapMuxAir {
    pub fn width(&self) -> (r: usize)
        ensures
            r == CM_CAP_HEIGHT,
    {
        CM_CAP_HEIGHT
    }

    pub fn num_public_values(&self) -> (r: usize)
        ensures
            r == 260,
    {
        260
    }

    pub fn eval(&self) -> (r: Vec<Constraint>)
        ensures
            forall|env: Env| #[trigger] denote(r@, env) == cap_mux_polys(env),
    {
        let mut out: Vec<Constraint> = Vec::new();
        emit_all(&mut out, Gate::First, &bit_exprs(0, CM_CAP_HEIGHT));
        let mut mux: Vec<Expr> = Vec::new();
        for l in 0..4
            invariant
                mux.len() == l,
                forall|j: int, env: Env|
                    0 <= j < l ==> (#[trigger] mux@[j].val(env)) == mux_z(
                        env.cur,
                        env.pis,
                        j,
                        6,
                        64,
                    ) - env.pis[256 + j],
        {
            mux.push(mux_expr(l, CM_CAP_HEIGHT, 64).minus(&pis(256 + l)));
        }
        proof {
            assert forall|env: Env| #[trigger] vals(mux@, env) == mux_polys(env) by {
                assert(vals(mux@, env) =~= mux_polys(env));
            }
        }
        emit_all(&mut out, Gate::First, &mux);
        proof {
            assert forall|env: Env| #[trigger] denote(out@, env) == cap_mux_polys(env) by {
                assert(denote(out@, env) =~= cap_mux_polys(env));
            }
        }
        out
    }
}

/// Fills the trace of a cap entry.
pub fn cm_build_trace(index_high: u64) -> (t: Trace)
    ensures
        cells(t@) == repeated(bit_cells(index_high as int, 6), ROWS as int),
{
    let row: Vec<u64> = bit_row(index_high, CM_CAP_HEIGHT);
    repeat_row(&row, ROWS)
}

/// A selector is one at the number that the cells make up, and zero elsewhere.
proof fn lemma_selector(row: Seq<int>, e: int, v: int, n: nat)
    requires
        forall|j: int| 0 <= j < n ==> red(#[trigger] row[j]) == bit_of(v, j),
    ensures
        red(selector(row, e, n)) == (if forall|j: int|
            0 <= j < n ==> #[trigger] bit_of(e, j) == bit_of(v, j) {
            1int
        } else {
            0int
        }),
    decreases n,
{
    lemma_red_small(0);
    lemma_red_small(1);
    if n > 0 {
        let m = (n - 1) as nat;
        lemma_selector(row, e, v, m);
        let s = selector(row, e, m);
        let x = row[n - 1];
        let f = if bit_of(e, n - 1) == 1 {
            x
        } else {
            1 - x
        };
        let d = bit_of(v, n - 1);
        assert(red(x) == d && (d == 0 || d == 1));
        lemma_red_red(x);
        lemma_cong_sub(1, 1, x, d);
        let same = bit_of(e, n - 1) == d;
        let g: int = if same {
            1
        } else {
            0
        };
        let eb = bit_of(e, n - 1);
        assert(eb == 0 || eb == 1);
        assert(cong(f, g));
        lemma_red_red(s);
        lemma_cong_mul(s, red(s), f, g);
        assert(red(s) * 1 == red(s) && red(s) * 0 == 0);
        let before = forall|j: int| 0 <= j < m ==> #[trigger] bit_of(e, j) == bit_of(v, j);
        let all = forall|j: int| 0 <= j < n ==> #[trigger] bit_of(e, j) == bit_of(v, j);
        assert(all <==> before && same) by {
            if before && same {
                assert forall|j: int| 0 <= j < n implies #[trigger] bit_of(e, j) == bit_of(v, j) by {
                    if j == n - 1 {
                    }
                }
            }
        }
    }
}

/// The sum of selected entries is the entry at the number that the cells make up.
proof fn lemma_mux(row: Seq<int>, pv: Seq<int>, l: int, n: nat, v: int, m: nat)
    requires
        forall|j: int| 0 <= j < n ==> red(#[trigger] row[j]) == bit_of(v, j),
        0 <= v < pow2(n),
        m <= pow2(n),
    ensures
        cong(
            mux_z(row, pv, l, n, m),
            if v < m {
                pv[4 * v + l]
            } else {
                0
            },
        ),
    decreases m,
{
    if m > 0 {
        let k = (m - 1) as nat;
        lemma_mux(row, pv, l, n, v, k);
        lemma_selector(row, k as int, v, n);
        let s = selector(row, k as int, n);
        let x = pv[4 * k as int + l];
        lemma_red_red(s);
        lemma_cong_mul(s, red(s), x, x);
        assert(1 * x == x && 0 * x == 0);
        let same = forall|j: int| 0 <= j < n ==> #[trigger] bit_of(k as int, j) == bit_of(v, j);
        assert(same <==> k == v) by {
            if same {
                lemma_same_bits(k as int, v, n);
            }
        }
        let before = if v < k {
            pv[4 * v + l]
        } else {
            0
        };
        lemma_cong_add(
            mux_z(row, pv, l, n, k),
            before,
            s * x,
            if k == v {
                x
            } else {
                0
            },
        );
    }
}

proof fn lemma_cap_holds(env: Env, r: int, h: int)
    ensures
        holds(cap_mux_polys(env), r, h) <==> (r == 0 ==> vanish(bits_z(env.cur, 0, 6)) && vanish(
            mux_polys(env),
        )),
{
    let (p1, p2) = (bits_z(env.cur, 0, 6), mux_polys(env));
    lemma_holds_gated(Gate::First, p1, r, h);
    lemma_holds_gated(Gate::First, p2, r, h);
    lemma_holds_concat(gated(Gate::First, p1), gated(Gate::First, p2), r, h);
}

/// Whatever trace meets the constraints, the public entry is the entry of the public cap at the
/// number that its bits make up.
pub proof fn law_cap_mux_sound(t: Seq<Seq<int>>, pv: Seq<int>, l: int)
    requires
        t.len() > 0,
        0 <= l < 4,
        satisfied(|env: Env| cap_mux_polys(env), t, Seq::empty(), pv),
    ensures
        0 <= number(t[0], 0, 6) < 64,
        cong(pv[256 + l], pv[4 * number(t[0], 0, 6) + l]),
{
    let polys = |env: Env| cap_mux_polys(env);
    let env = row_env(t, Seq::empty(), pv, 0);
    let h = t.len() as int;
    assert(holds(polys(env), 0, h));
    lemma_cap_holds(env, 0, h);
    let row = t[0];
    law_bit_range(row, 0, 6);
    lemma_number(row, 0, 6);
    lemma2_to64();
    let v = number(row, 0, 6);
    assert forall|j: int| 0 <= j < 6 implies red(#[trigger] row[j]) == bit_of(v, j) by {
        assert(row[0 + j] == row[j]);
    }
    lemma_mux(row, pv, l, 6, v, 64);
    assert(red(mux_polys(env)[l]) == 0);
    lemma_cong_diff(mux_z(row, pv, l, 6, 64), pv[256 + l]);
}

/// The trace of an entry meets the constraints exactly for the entry of the cap at its number.
pub proof fn law_cap_mux_complete(v: int, pv: Seq<int>)
    requires
        0 <= v < 64,
    ensures
        satisfied(
            |env: Env| cap_mux_polys(env),
            repeated(bit_cells(v, 6), ROWS as int),
            Seq::empty(),
            pv,
        ) <==> forall|l: int| 0 <= l < 4 ==> cong(#[trigger] pv[256 + l], pv[4 * v + l]),
{
    let row = bit_cells(v, 6);
    let t = repeated(row, ROWS as int);
    let h = t.len() as int;
    let polys = |env: Env| cap_mux_polys(env);
    lemma2_to64();
    lemma_red_small(0);
    lemma_red_small(1);
    assert forall|j: int| 0 <= j < 6 implies red(#[trigger] row[j]) == bit_of(v, j) by {}
    lemma_bits_vanish(row, 0, 6, v);
    let env0 = row_env(t, Seq::empty(), pv, 0);
    assert forall|l: int| 0 <= l < 4 implies (red(#[trigger] mux_polys(env0)[l]) == 0 <==> cong(
        pv[256 + l],
        pv[4 * v + l],
    )) by {
        lemma_mux(row, pv, l, 6, v, 64);
        lemma_cong_diff(mux_z(row, pv, l, 6, 64), pv[256 + l]);
    }
    lemma_cap_holds(env0, 0, h);
    if satisfied(polys, t, Seq::empty(), pv) {
        assert(holds(polys(env0), 0, h));
        assert forall|l: int| 0 <= l < 4 implies cong(#[trigger] pv[256 + l], pv[4 * v + l]) by {
            assert(red(mux_polys(env0)[l]) == 0);
        }
    }
    if forall|l: int| 0 <= l < 4 ==> cong(#[trigger] pv[256 + l], pv[4 * v + l]) {
        assert(vanish(mux_polys(env0))) by {
            assert forall|l: int| 0 <= l < 4 implies red(#[trigger] mux_polys(env0)[l]) == 0 by {
                assert(cong(pv[256 + l], pv[4 * v + l]));
            }
        }
        assert forall|r: int|
            #![trigger row_env(t, Seq::empty(), pv, r)]
            0 <= r < h implies holds(polys(row_env(t, Seq::empty(), pv, r)), r, h) by {
            lemma_cap_holds(row_env(t, Seq::empty(), pv, r), r, h);
        }
    }
}

} // verus!
