//! A Merkle path whose leaf is hashed in the trace: one block that hashes the public leaf elements,
//! one block per level, and blocks that fill the trace up to a power of two.
use super::cells::{extend, zero_cells, zeros};
use super::tiled::lemma_one;
use crate::cols::{last_col, last_z, range_col, range_z};
use crate::expr::{
    bit_poly, cells, cur, denote, emit, emit_all, Constraint, Env, Expr, gated, Gate, holds,
    lemma_holds_concat, lemma_holds_gated, lemma_holds_push, lemma_scaled, per, pis, row_env,
    satisfied, scale_all, scaled, Trace, vals, vanish,
};
use crate::field::{cong, ints, lemma_cong_diff, lemma_red_small, red, P};
use crate::fri_merkle::{
    build_trace, canonical_cells, lemma_link_to, lemma_merkle_row, lemma_merkle_step,
    lemma_steps_follow, merkle_trace, path_ok,
};
use crate::gadgets::{bit_z, lemma_select, link_exprs, link_polys};
use crate::merkle::{
    first_half, fold_path, lemma_node_bound, node_after, ordered_z, path_z, root_of, take4, Digest,
};
use crate::poseidon2::{
    lanes, lemma_block, lemma_perm_row_bound, lemma_perm_step, lemma_round_idle,
    lemma_rounds_vanish, native_permute, native_steps, perm, perm_row, periodic_table, red_seq,
    round_col, round_exprs, round_polys, round_row, step_z, ROUND_COLS,
};
use crate::transcript::state_row;
use vstd::prelude::*;

verus! {

pub const IMT_SIB: usize = 8;

pub const IMT_BIT: usize = 12;

pub const IMT_W: usize = 13;

pub const IMT_P_BLOCK_LAST: usize = 11;

/// The last row of the block of the last level.
pub const IMT_P_TERMINAL: usize = 12;

/// The elements of a leaf as the input of a permutation: zeros behind them.
pub open spec fn leaf_state(v: Seq<int>) -> Seq<int> {
    Seq::new(
        8,
        |i: int|
            if i < v.len() {
                v[i]
            } else {
                0
            },
    )
}

/// The digest of a leaf of at most eight elements.
pub open spec fn leaf_digest(v: Seq<int>) -> Seq<int> {
    take4(perm(leaf_state(v)))
}

/// The first row holds the first `n` public values, then zeros.
pub open spec fn leaf_in_polys(env: Env, n: int) -> Seq<int> {
    Seq::new(
        8,
        |i: int|
            if i < n {
                env.cur[i] - env.pis[i]
            } else {
                env.cur[i]
            },
    )
}

fn leaf_in_exprs(n: usize) -> (r: Vec<Expr>)
    requires
        n <= 8,
    ensures
        r.len() == 8,
        forall|env: Env| #[trigger] vals(r@, env) == leaf_in_polys(env, n as int),
{
    let mut r: Vec<Expr> = Vec::new();
    for i in 0..8
        invariant
            n <= 8,
            r.len() == i,
            forall|j: int, env: Env|
                0 <= j < i ==> (#[trigger] r@[j].val(env)) == (if j < n {
                    env.cur[j] - env.pis[j]
                } else {
                    env.cur[j]
                }),
    {
        if i < n {
            r.push(cur(i).minus(&pis(i)));
        } else {
            r.push(cur(i));
        }
    }
    proof {
        assert forall|env: Env| #[trigger] vals(r@, env) == leaf_in_polys(env, n as int) by {
            assert(vals(r@, env) =~= leaf_in_polys(env, n as int));
        }
    }
    r
}

/// Where `on` is set the digest cells are the public values at `at`.
pub open spec fn end_polys(env: Env, on: int, at: int) -> Seq<int> {
    Seq::new(4, |k: int| on * (env.cur[k] - env.pis[at + k]))
}

pub fn end_exprs(on: &Expr, at: usize) -> (r: Vec<Expr>)
    requires
        at + 4 <= usize::MAX,
    ensures
        r.len() == 4,
        forall|env: Env| #[trigger] vals(r@, env) == end_polys(env, on.val(env), at as int),
{
    let mut r: Vec<Expr> = Vec::new();
    for k in 0..4
        invariant
            at + 4 <= usize::MAX,
            r.len() == k,
            forall|j: int, env: Env|
                0 <= j < k ==> (#[trigger] r@[j].val(env)) == on.val(env) * (env.cur[j] - env.pis[at
                    + j]),
    {
        r.push(on.times(&cur(k).minus(&pis(at + k))));
    }
    proof {
        assert forall|env: Env| #[trigger] vals(r@, env) == end_polys(env, on.val(env), at as int) by {
            assert(vals(r@, env) =~= end_polys(env, on.val(env), at as int));
        }
    }
    r
}

/// The constraints of a tile whose leaf has `n` elements. The public values are the leaf, then the
/// root.
pub open spec fn mt_polys(env: Env, n: int) -> Seq<(Gate, int)> {
    gated(Gate::Transition, round_polys(lanes(env.cur, 0), lanes(env.nxt, 0), env.per)).push(
        (Gate::Always, bit_z(env.cur[12])),
    ) + gated(Gate::First, leaf_in_polys(env, n)) + gated(
        Gate::Transition,
        scaled(env.per[11], link_polys(env.cur, env.nxt, 8, 12)),
    ) + gated(Gate::Always, end_polys(env, env.per[12], n))
}

fn mt_exprs(n: usize) -> (out: Vec<Constraint>)
    requires
        n <= 8,
    ensures
        forall|env: Env| #[trigger] denote(out@, env) == mt_polys(env, n as int),
{
    let mut out: Vec<Constraint> = Vec::new();
    emit_all(&mut out, Gate::Transition, &round_exprs(0));
    emit(&mut out, Gate::Always, bit_poly(&cur(IMT_BIT)));
    emit_all(&mut out, Gate::First, &leaf_in_exprs(n));
    emit_all(
        &mut out,
        Gate::Transition,
        &scale_all(&per(IMT_P_BLOCK_LAST), &link_exprs(IMT_SIB, IMT_BIT)),
    );
    emit_all(&mut out, Gate::Always, &end_exprs(&per(IMT_P_TERMINAL), n));
    proof {
        assert forall|env: Env| #[trigger] denote(out@, env) == mt_polys(env, n as int) by {
            assert(denote(out@, env) =~= mt_polys(env, n as int));
        }
    }
    out
}

/// The periodic columns of a tile of `blocks` blocks whose path has `depth` levels.
pub open spec fn mt_cols(depth: int, blocks: int) -> Seq<Seq<int>> {
    let h = (32 * blocks) as nat;
    Seq::new(
        13,
        |j: int|
            if j < 11 {
                Seq::new(32, |k: int| round_col(j, k))
            } else if j == 11 {
                Seq::new(h, |r: int| last_z(r))
            } else {
                Seq::new(h, |r: int| range_z(r, 32 * depth + 31, 32 * depth + 32))
            },
    )
}

fn mt_periodic(depth: usize, blocks: usize) -> (cols: Vec<Vec<u64>>)
    requires
        depth < blocks,
        32 * blocks <= usize::MAX,
    ensures
        cells(cols@) == mt_cols(depth as int, blocks as int),
{
    let h: usize = 32 * blocks;
    let mut cols: Vec<Vec<u64>> = periodic_table();
    cols.push(last_col(h));
    cols.push(range_col(h, 32 * depth + 31, 32 * depth + 32));
    proof {
        let want = mt_cols(depth as int, blocks as int);
        assert forall|j: int| 0 <= j < 13 implies #[trigger] cells(cols@)[j] == want[j] by {
            assert(cells(cols@)[j] =~= want[j]);
        }
        assert(cells(cols@) =~= want);
    }
    cols
}

/// A path and levels with a zero sibling on the right, `m` levels in all.
pub open spec fn padded_path(path: Seq<(Seq<int>, bool)>, m: int) -> Seq<(Seq<int>, bool)> {
    Seq::new(
        m as nat,
        |i: int|
            if i < path.len() {
                path[i]
            } else {
                (seq![0int, 0, 0, 0], false)
            },
    )
}

/// Row `r` of a tile.
pub open spec fn mt_row(leaf: Seq<int>, path: Seq<(Seq<int>, bool)>, blocks: int, r: int) -> Seq<
    int,
> {
    if r < 32 {
        perm_row(leaf_state(leaf), r as nat) + zeros(5)
    } else {
        merkle_trace(leaf_digest(leaf), padded_path(path, blocks - 1))[r - 32]
    }
}

pub open spec fn mt_trace(leaf: Seq<int>, path: Seq<(Seq<int>, bool)>, blocks: int) -> Seq<
    Seq<int>,
> {
    Seq::new((32 * blocks) as nat, |r: int| mt_row(leaf, path, blocks, r))
}

/// The elements of a leaf as the input of a permutation.
pub fn leaf_input(leaf: &[u64]) -> (s: [u64; 8])
    requires
        leaf@.len() <= 8,
    ensures
        ints(s@) == leaf_state(ints(leaf@)),
{
    let mut s: [u64; 8] = [0; 8];
    let n: usize = leaf.len();
    for i in 0..n
        invariant
            n == leaf@.len(),
            n <= 8,
            forall|j: int| 0 <= j < i ==> #[trigger] s@[j] == leaf@[j],
            forall|j: int| i <= j < 8 ==> #[trigger] s@[j] == 0,
    {
        s[i] = leaf[i];
    }
    assert(ints(s@) =~= leaf_state(ints(leaf@)));
    s
}

/// Fills the trace of a leaf and its path in `blocks` blocks; also the root.
pub fn mt_build_trace(leaf: &[u64], path: &[(Digest, bool)], blocks: usize) -> (r: (Trace, Digest))
    requires
        leaf@.len() <= 8,
        path@.len() < blocks,
    ensures
        cells(r.0@) == mt_trace(ints(leaf@), path_z(path@), blocks as int),
        ints(r.1@) == root_of(leaf_digest(ints(leaf@)), path_z(path@)),
{
    let ghost (lz, pz) = (ints(leaf@), path_z(path@));
    let input: [u64; 8] = leaf_input(leaf);
    let steps: Vec<[u64; 8]> = native_steps(input);
    let mut t: Trace = Vec::new();
    for r in 0..32
        invariant
            steps.len() == 32,
            lz == ints(leaf@),
            ints(input@) == leaf_state(lz),
            forall|j: int|
                0 <= j < 32 ==> ints((#[trigger] steps@[j])@) == perm_row(ints(input@), j as nat),
            t.len() == r,
            forall|i: int|
                0 <= i < r ==> ints((#[trigger] t@[i])@) == mt_row(lz, pz, blocks as int, i),
    {
        let mut row: Vec<u64> = state_row(&steps[r]);
        extend(&mut row, &zero_cells(5));
        t.push(row);
    }
    let digest: Digest = first_half(native_permute(input));
    let mut full: Vec<(Digest, bool)> = Vec::new();
    let n: usize = path.len();
    let m: usize = blocks - 1;
    for i in 0..m
        invariant
            m == blocks - 1,
            n == path@.len(),
            pz == path_z(path@),
            full.len() == i,
            forall|j: int|
                #![trigger full@[j]]
                0 <= j < i ==> (ints(full@[j].0@), full@[j].1) == padded_path(pz, blocks - 1)[j],
    {
        if i < n {
            full.push(path[i]);
        } else {
            let zero: Digest = [0; 4];
            assert(ints(zero@) =~= seq![0int, 0, 0, 0]);
            full.push((zero, false));
        }
    }
    assert(path_z(full@) =~= padded_path(pz, blocks - 1));
    let mut rest: Trace = build_trace(digest, full.as_slice());
    let ghost (head, tail) = (t@, rest@);
    proof {
        assert(rest.len() == 32 * (blocks - 1)) by {
            assert(cells(rest@).len() == 32 * (blocks - 1));
        }
    }
    t.append(&mut rest);
    proof {
        assert forall|r: int| 0 <= r < 32 * blocks implies ints((#[trigger] t@[r])@) == mt_row(
            lz,
            pz,
            blocks as int,
            r,
        ) by {
            if r < 32 {
                assert(t@[r] == head[r]);
            } else {
                assert(t@[r] == tail[r - 32]);
                assert(cells(tail)[r - 32] == ints(tail[r - 32]@));
            }
        }
        assert(cells(t@) =~= mt_trace(lz, pz, blocks as int));
    }
    (t, fold_path(digest, path))
}

/// The trace value of a query: a leaf of one element, four levels, eight blocks.
pub struct InputMerkleTileAir;

pub const IMT_DEPTH: usize = 4;

pub const IMT_NBLOCKS_PAD: usize = 8;

impl InputMerkleTileAir {
    pub fn height(&self) -> (r: usize)
        ensures
            r == 256,
    {
        256
    }

    pub fn width(&self) -> (r: usize)
        ensures
            r == IMT_W,
    {
        IMT_W
    }

    pub fn num_public_values(&self) -> (r: usize)
        ensures
            r == 5,
    {
        5
    }

    pub fn num_periodic_columns(&self) -> (r: usize)
        ensures
            r == 13,
    {
        IMT_P_TERMINAL + 1
    }

    pub fn periodic(&self) -> (cols: Vec<Vec<u64>>)
        ensures
            cells(cols@) == mt_cols(4, 8),
    {
        mt_periodic(IMT_DEPTH, IMT_NBLOCKS_PAD)
    }

    pub fn eval(&self) -> (r: Vec<Constraint>)
        ensures
            forall|env: Env| #[trigger] denote(r@, env) == mt_polys(env, 1),
    {
        mt_exprs(1)
    }
}

/// Fills the trace of the opened value `v` and its path; also the root.
pub fn im_build_trace(v: u64, path: &[(Digest, bool)]) -> (r: (Trace, Digest))
    requires
        path@.len() == IMT_DEPTH,
    ensures
        cells(r.0@) == mt_trace(seq![v as int], path_z(path@), 8),
        ints(r.1@) == root_of(leaf_digest(seq![v as int]), path_z(path@)),
{
    let leaf: [u64; 1] = [v];
    assert(ints(leaf@) =~= seq![v as int]);
    mt_build_trace(&leaf, path, IMT_NBLOCKS_PAD)
}

/// A fold group: a leaf of four elements, two levels, four blocks.
pub struct CommitMerkleTileAir;

pub const CMT_DEPTH: usize = 2;

pub const CMT_NBLOCKS_PAD: usize = 4;

impl CommitMerkleTileAir {
    pub fn height(&self) -> (r: usize)
        ensures
            r == 128,
    {
        128
    }

    pub fn width(&self) -> (r: usize)
        ensures
            r == IMT_W,
    {
        IMT_W
    }

    pub fn num_public_values(&self) -> (r: usize)
        ensures
            r == 8,
    {
        8
    }

    pub fn num_periodic_columns(&self) -> (r: usize)
        ensures
            r == 13,
    {
        IMT_P_TERMINAL + 1
    }

    pub fn periodic(&self) -> (cols: Vec<Vec<u64>>)
        ensures
            cells(cols@) == mt_cols(2, 4),
    {
        mt_periodic(CMT_DEPTH, CMT_NBLOCKS_PAD)
    }

    pub fn eval(&self) -> (r: Vec<Constraint>)
        ensures
            forall|env: Env| #[trigger] denote(r@, env) == mt_polys(env, 4),
    {
        mt_exprs(4)
    }
}

/// Fills the trace of a fold group and its path; also the root.
pub fn cm2_build_trace(group: Digest, path: &[(Digest, bool)]) -> (r: (Trace, Digest))
    requires
        path@.len() == CMT_DEPTH,
    ensures
        cells(r.0@) == mt_trace(ints(group@), path_z(path@), 4),
        ints(r.1@) == root_of(leaf_digest(ints(group@)), path_z(path@)),
{
    mt_build_trace(&group, path, CMT_NBLOCKS_PAD)
}

/// What the periodic columns hold at row `r`.
proof fn lemma_mt_env(t: Seq<Seq<int>>, pv: Seq<int>, depth: int, blocks: int, r: int)
    requires
        0 <= r < 32 * blocks,
    ensures
        ({
            let p = row_env(t, mt_cols(depth, blocks), pv, r).per;
            &&& round_row(p, r % 32)
            &&& p[11] == last_z(r)
            &&& p[12] == range_z(r, 32 * depth + 31, 32 * depth + 32)
        }),
{
    let c = mt_cols(depth, blocks);
    let p = row_env(t, c, pv, r).per;
    let h = 32 * blocks;
    vstd::arithmetic::div_mod::lemma_small_mod(r as nat, h as nat);
    assert forall|j: int| 0 <= j < ROUND_COLS implies #[trigger] p[j] == round_col(j, r % 32) by {
        assert(c[j].len() == 32);
    }
    assert(c[11].len() == h && c[12].len() == h);
}

/// The constraints at a row, group by group.
proof fn lemma_mt_holds(env: Env, n: int, r: int, h: int)
    ensures
        holds(mt_polys(env, n), r, h) <==> {
            &&& r != h - 1 ==> vanish(round_polys(lanes(env.cur, 0), lanes(env.nxt, 0), env.per))
            &&& red(bit_z(env.cur[12])) == 0
            &&& r == 0 ==> vanish(leaf_in_polys(env, n))
            &&& r != h - 1 ==> vanish(
                scaled(env.per[11], link_polys(env.cur, env.nxt, 8, 12)),
            )
            &&& vanish(end_polys(env, env.per[12], n))
        },
{
    let p1 = round_polys(lanes(env.cur, 0), lanes(env.nxt, 0), env.per);
    let x = (Gate::Always, bit_z(env.cur[12]));
    let p2 = leaf_in_polys(env, n);
    let p3 = scaled(env.per[11], link_polys(env.cur, env.nxt, 8, 12));
    let p4 = end_polys(env, env.per[12], n);
    let (g1, g2) = (gated(Gate::Transition, p1), gated(Gate::First, p2));
    let (g3, g4) = (gated(Gate::Transition, p3), gated(Gate::Always, p4));
    lemma_holds_gated(Gate::Transition, p1, r, h);
    lemma_holds_gated(Gate::First, p2, r, h);
    lemma_holds_gated(Gate::Transition, p3, r, h);
    lemma_holds_gated(Gate::Always, p4, r, h);
    lemma_holds_push(g1, x, r, h);
    lemma_holds_concat(g1.push(x), g2, r, h);
    lemma_holds_concat(g1.push(x) + g2, g3, r, h);
    lemma_holds_concat(g1.push(x) + g2 + g3, g4, r, h);
}

pub proof fn lemma_end_polys(env: Env, on: int, at: int)
    requires
        on == 0 || on == 1,
    ensures
        vanish(end_polys(env, on, at)) <==> (on == 1 ==> forall|k: int|
            0 <= k < 4 ==> cong(#[trigger] env.pis[at + k], env.cur[k])),
{
    let p = end_polys(env, on, at);
    assert forall|k: int| 0 <= k < 4 implies (red(#[trigger] p[k]) == 0 <==> (on == 1 ==> cong(
        env.pis[at + k],
        env.cur[k],
    ))) by {
        lemma_one(on, env.cur[k] - env.pis[at + k]);
        lemma_cong_diff(env.cur[k], env.pis[at + k]);
    }
    if vanish(p) && on == 1 {
        assert forall|k: int| 0 <= k < 4 implies cong(#[trigger] env.pis[at + k], env.cur[k]) by {
            assert(red(p[k]) == 0);
        }
    }
    if on == 1 ==> forall|k: int| 0 <= k < 4 ==> cong(#[trigger] env.pis[at + k], env.cur[k]) {
        assert forall|k: int| 0 <= k < 4 implies red(#[trigger] p[k]) == 0 by {
            if on == 1 {
                assert(cong(env.pis[at + k], env.cur[k]));
            }
        }
    }
}

/// The nodes of a padded path are those of the path.
/// A row whose first cells are those of row `r` of a tile, and the row behind it.
pub proof fn lemma_mt_step(
    leaf: Seq<int>,
    path: Seq<(Seq<int>, bool)>,
    blocks: int,
    r: int,
    c: Seq<int>,
    n: Seq<int>,
    p: Seq<int>,
)
    requires
        leaf.len() <= 8,
        path_ok(path),
        path.len() < blocks,
        0 <= r < 32 * blocks - 1,
        forall|i: int| 0 <= i < 13 ==> #[trigger] c[i] == mt_row(leaf, path, blocks, r)[i],
        forall|i: int| 0 <= i < 13 ==> #[trigger] n[i] == mt_row(leaf, path, blocks, r + 1)[i],
        round_row(p, r % 32),
    ensures
        vanish(round_polys(lanes(c, 0), lanes(n, 0), p)),
        r % 32 == 31 ==> vanish(link_polys(c, n, 8, 12)),
{
    let full = padded_path(path, blocks - 1);
    let (s, dg) = (leaf_state(leaf), leaf_digest(leaf));
    let mt = merkle_trace(dg, full);
    assert(path_ok(full));
    lemma_perm_row_bound(s, 31);
    let (a, b) = (mt_row(leaf, path, blocks, r), mt_row(leaf, path, blocks, r + 1));
    assert(lanes(c, 0) =~= lanes(a, 0) && lanes(n, 0) =~= lanes(b, 0));
    assert(link_polys(c, n, 8, 12) =~= link_polys(a, b, 8, 12));
    if r < 31 {
        lemma_perm_row_bound(s, r as nat);
        lemma_perm_row_bound(s, (r + 1) as nat);
        assert(lanes(a, 0) =~= perm_row(s, r as nat));
        assert(lanes(b, 0) =~= perm_row(s, (r + 1) as nat));
        lemma_rounds_vanish(s, p, r as nat);
    } else if r == 31 {
        lemma_round_idle(lanes(a, 0), lanes(b, 0), p);
        assert(b == mt[0]);
        assert(node_after(dg, full, 0) == dg);
        assert forall|i: int| 0 <= i < 4 implies #[trigger] a[i] == dg[i] by {}
        lemma_link_to(dg, full, 0, dg, a, b);
    } else {
        lemma_merkle_step(dg, full, r - 32, a, b, p);
    }
}

/// The cells of a row of a tile that are read beside the lanes.
pub proof fn lemma_mt_row_cells(
    leaf: Seq<int>,
    path: Seq<(Seq<int>, bool)>,
    blocks: int,
    r: int,
)
    requires
        leaf.len() <= 8,
        path_ok(path),
        path.len() < blocks,
        0 <= r < 32 * blocks,
    ensures
        ({
            let row = mt_row(leaf, path, blocks, r);
            &&& row.len() == 13
            &&& row[12] == 0 || row[12] == 1
            &&& r == 0 ==> lanes(row, 0) == leaf_state(leaf)
            &&& r == 32 * path.len() + 31 ==> take4(lanes(row, 0)) == root_of(
                leaf_digest(leaf),
                path,
            )
        }),
{
    let full = padded_path(path, blocks - 1);
    let (s, dg) = (leaf_state(leaf), leaf_digest(leaf));
    let row = mt_row(leaf, path, blocks, r);
    let d = path.len() as int;
    assert(path_ok(full));
    lemma_perm_row_bound(s, 31);
    if r < 32 {
        lemma_perm_row_bound(s, r as nat);
        assert(lanes(row, 0) =~= perm_row(s, r as nat));
        if r == 0 {
            lemma_perm_step(s, 0);
        }
    } else {
        lemma_merkle_row(dg, full, r - 32);
        let k = (r - 32) / 32;
        let input = ordered_z(node_after(dg, full, k as nat), full[k].0, full[k].1);
        lemma_perm_row_bound(input, ((r - 32) % 32) as nat);
    }
    if r == 32 * d + 31 {
        lemma_padded_node(dg, path, blocks - 1, d as nat);
        if d > 0 {
            let q = r - 32;
            assert(q / 32 == d - 1 && q % 32 == 31);
            assert(node_after(dg, full, d as nat) == take4(
                perm(ordered_z(node_after(dg, full, (d - 1) as nat), full[d - 1].0, full[d - 1].1)),
            ));
        }
    }
}

proof fn lemma_padded_node(leaf: Seq<int>, path: Seq<(Seq<int>, bool)>, m: int, k: nat)
    requires
        k <= path.len() <= m,
    ensures
        node_after(leaf, padded_path(path, m), k) == node_after(leaf, path, k),
    decreases k,
{
    if k > 0 {
        lemma_padded_node(leaf, path, m, (k - 1) as nat);
        assert(padded_path(path, m)[k - 1] == path[k - 1]);
    }
}

proof fn lemma_mt_row_holds(
    leaf: Seq<int>,
    path: Seq<(Seq<int>, bool)>,
    blocks: int,
    root: Seq<int>,
    r: int,
)
    requires
        leaf.len() <= 8,
        path_ok(path),
        path.len() < blocks,
        root.len() == 4,
        0 <= r < 32 * blocks,
    ensures
        holds(
            mt_polys(
                row_env(
                    mt_trace(leaf, path, blocks),
                    mt_cols(path.len() as int, blocks),
                    leaf + root,
                    r,
                ),
                leaf.len() as int,
            ),
            r,
            32 * blocks,
        ) <==> (r == 32 * path.len() + 31 ==> forall|k: int|
            0 <= k < 4 ==> cong(#[trigger] root[k], root_of(leaf_digest(leaf), path)[k])),
{
    let n = leaf.len() as int;
    let d = path.len() as int;
    let t = mt_trace(leaf, path, blocks);
    let h = 32 * blocks;
    let pv = leaf + root;
    let env = row_env(t, mt_cols(d, blocks), pv, r);
    let full = padded_path(path, blocks - 1);
    let (s, dg) = (leaf_state(leaf), leaf_digest(leaf));
    let mt = merkle_trace(dg, full);
    assert(path_ok(full));
    lemma_mt_holds(env, n, r, h);
    lemma_mt_env(t, pv, d, blocks, r);
    lemma_end_polys(env, env.per[12], n);
    lemma_red_small(0);
    lemma_perm_row_bound(s, 31);
    assert(dg.len() == 4);
    let link = link_polys(env.cur, env.nxt, 8, 12);
    lemma_scaled(env.per[11], link);
    if r < 32 {
        lemma_perm_row_bound(s, r as nat);
        assert(lanes(env.cur, 0) =~= perm_row(s, r as nat));
        assert(env.cur[12] == 0);
        if r < 31 {
            lemma_perm_row_bound(s, (r + 1) as nat);
            assert(lanes(env.nxt, 0) =~= perm_row(s, (r + 1) as nat));
            lemma_rounds_vanish(s, env.per, r as nat);
        } else if r != h - 1 {
            lemma_round_idle(lanes(env.cur, 0), lanes(env.nxt, 0), env.per);
            assert(vanish(round_polys(lanes(env.cur, 0), lanes(env.nxt, 0), env.per)));
            assert(env.nxt == mt[0]);
            assert(node_after(dg, full, 0) == dg);
            assert forall|i: int| 0 <= i < 4 implies #[trigger] env.cur[i] == dg[i] by {}
            lemma_link_to(dg, full, 0, dg, env.cur, env.nxt);
        }
    } else {
        let q = r - 32;
        lemma_merkle_row(dg, full, q);
        assert(r % 32 == q % 32);
        assert(red(bit_z(env.cur[12])) == 0);
        if r != h - 1 {
            lemma_merkle_step(dg, full, q, env.cur, env.nxt, env.per);
        }
    }
    if r == 0 {
        lemma_perm_step(s, 0);
        let l = leaf_in_polys(env, n);
        assert forall|i: int| 0 <= i < 8 implies red(#[trigger] l[i]) == 0 by {
            assert(env.cur[i] == s[i]);
            assert(i < n ==> pv[i] == leaf[i]);
        }
    }
    if r == 32 * d + 31 {
        lemma_padded_node(dg, path, blocks - 1, d as nat);
        if d == 0 {
            assert forall|i: int| 0 <= i < 4 implies #[trigger] env.cur[i] == dg[i] by {}
        } else {
            let q = r - 32;
            assert(q / 32 == d - 1 && q % 32 == 31);
            assert(node_after(dg, full, d as nat) == take4(
                perm(ordered_z(node_after(dg, full, (d - 1) as nat), full[d - 1].0, full[d - 1].1)),
            ));
        }
        assert forall|k: int| 0 <= k < 4 implies env.cur[k] == root_of(dg, path)[k] by {}
        assert forall|k: int| 0 <= k < 4 implies #[trigger] env.pis[n + k] == root[k] by {}
        if forall|k: int| 0 <= k < 4 ==> cong(#[trigger] root[k], root_of(dg, path)[k]) {
            assert forall|k: int| 0 <= k < 4 implies cong(#[trigger] env.pis[n + k], env.cur[k]) by {
                assert(cong(root[k], root_of(dg, path)[k]));
            }
        }
        if forall|k: int| 0 <= k < 4 ==> cong(#[trigger] env.pis[n + k], env.cur[k]) {
            assert forall|k: int| 0 <= k < 4 implies cong(#[trigger] root[k], root_of(dg, path)[k]) by {
                assert(cong(env.pis[n + k], env.cur[k]));
            }
        }
    }
}

/// The trace of a leaf and its path meets the constraints exactly for the root that its digest folds
/// to.
pub proof fn law_merkle_tile_complete(
    leaf: Seq<int>,
    path: Seq<(Seq<int>, bool)>,
    blocks: int,
    root: Seq<int>,
)
    requires
        leaf.len() <= 8,
        path_ok(path),
        path.len() < blocks,
        root.len() == 4,
    ensures
        satisfied(
            |env: Env| mt_polys(env, leaf.len() as int),
            mt_trace(leaf, path, blocks),
            mt_cols(path.len() as int, blocks),
            leaf + root,
        ) <==> forall|k: int|
            0 <= k < 4 ==> cong(#[trigger] root[k], root_of(leaf_digest(leaf), path)[k]),
{
    let n = leaf.len() as int;
    let t = mt_trace(leaf, path, blocks);
    let pc = mt_cols(path.len() as int, blocks);
    let pv = leaf + root;
    let polys = |env: Env| mt_polys(env, n);
    let last = 32 * path.len() as int + 31;
    if satisfied(polys, t, pc, pv) {
        assert(holds(polys(row_env(t, pc, pv, last)), last, t.len() as int));
        lemma_mt_row_holds(leaf, path, blocks, root, last);
    }
    if forall|k: int| 0 <= k < 4 ==> cong(#[trigger] root[k], root_of(leaf_digest(leaf), path)[k]) {
        assert forall|r: int|
            #![trigger row_env(t, pc, pv, r)]
            0 <= r < t.len() implies holds(polys(row_env(t, pc, pv, r)), r, t.len() as int) by {
            lemma_mt_row_holds(leaf, path, blocks, root, r);
        }
    }
}

/// The siblings and directions at the heads of the `d` blocks behind the first.
pub open spec fn tile_path(t: Seq<Seq<int>>, d: nat) -> Seq<(Seq<int>, bool)> {
    Seq::new(
        d,
        |i: int| (Seq::new(4, |k: int| t[32 * (i + 1)][8 + k]), t[32 * (i + 1)][12] == 1),
    )
}

proof fn lemma_mt_block(
    t: Seq<Seq<int>>,
    leaf: Seq<int>,
    root: Seq<int>,
    d: nat,
    blocks: int,
    k: nat,
)
    requires
        leaf.len() <= 8,
        root.len() == 4,
        d < blocks,
        k <= d,
        t.len() == 32 * blocks,
        canonical_cells(t, 13),
        forall|i: int| 0 <= i < leaf.len() ==> 0 <= #[trigger] leaf[i] < P,
        satisfied(
            |env: Env| mt_polys(env, leaf.len() as int),
            t,
            mt_cols(d as int, blocks),
            leaf + root,
        ),
    ensures
        take4(lanes(t[(32 * k + 31) as int], 0)) == node_after(
            leaf_digest(leaf),
            tile_path(t, d),
            k,
        ),
    decreases k,
{
    let n = leaf.len() as int;
    let polys = |env: Env| mt_polys(env, n);
    let pc = mt_cols(d as int, blocks);
    let pv = leaf + root;
    let h = t.len() as int;
    let head = 32 * k as int;
    let path = tile_path(t, d);
    let dg = leaf_digest(leaf);
    let s = leaf_state(leaf);
    lemma_perm_row_bound(s, 31);
    lemma_red_small(0);
    let input = if k == 0 {
        s
    } else {
        ordered_z(node_after(dg, path, (k - 1) as nat), path[k - 1].0, path[k - 1].1)
    };
    if k == 0 {
        let env = row_env(t, pc, pv, 0);
        assert(holds(polys(env), 0, h));
        lemma_mt_holds(env, n, 0, h);
        let l = leaf_in_polys(env, n);
        assert forall|i: int| 0 <= i < 8 implies #[trigger] lanes(t[head], 0)[i] == input[i] by {
            assert(red(l[i]) == 0);
            assert(0 <= t[0][i] < P);
            if i < n {
                assert(pv[i] == leaf[i]);
                lemma_cong_diff(t[0][i], leaf[i]);
                lemma_red_small(leaf[i]);
            }
            lemma_red_small(t[0][i]);
        }
    } else {
        let j = (k - 1) as nat;
        lemma_mt_block(t, leaf, root, d, blocks, j);
        let e = row_env(t, pc, pv, head - 1);
        assert(holds(polys(e), head - 1, h));
        lemma_mt_holds(e, n, head - 1, h);
        lemma_mt_env(t, pv, d as int, blocks, head - 1);
        assert((head - 1) % 32 == 31);
        let link = link_polys(e.cur, e.nxt, 8, 12);
        lemma_scaled(e.per[11], link);
        assert(vanish(link));
        let f = row_env(t, pc, pv, head);
        assert(holds(polys(f), head, h));
        lemma_mt_holds(f, n, head, h);
        let b = t[head][12];
        crate::prime::law_bits(b);
        assert(0 <= t[head][12] < P);
        lemma_red_small(b);
        let node = node_after(dg, path, j);
        let (sib, right) = path[k - 1];
        assert(32 * ((k - 1) + 1) == head);
        assert(32 * j + 31 == head - 1);
        assert forall|i: int| 0 <= i < 8 implies #[trigger] lanes(t[head], 0)[i] == input[i] by {
            let m = i % 4;
            assert(red(link[2 * m]) == 0 && red(link[2 * m + 1]) == 0);
            assert((2 * m) / 2 == m && (2 * m + 1) / 2 == m);
            assert(node[m] == t[head - 1][m]) by {
                assert(take4(lanes(t[head - 1], 0))[m] == t[head - 1][0 + m]);
            }
            lemma_select(b, node[m], t[head][8 + m]);
            lemma_select(b, t[head][8 + m], node[m]);
            assert(0 <= t[head][m] < P && 0 <= t[head][4 + m] < P && 0 <= t[head][8 + m] < P);
            assert(0 <= t[head - 1][m] < P);
            let (x, y) = if right {
                (t[head][8 + m], node[m])
            } else {
                (node[m], t[head][8 + m])
            };
            lemma_cong_diff(t[head][m], x);
            lemma_cong_diff(t[head][4 + m], y);
            lemma_red_small(t[head][m]);
            lemma_red_small(t[head][4 + m]);
            lemma_red_small(x);
            lemma_red_small(y);
        }
        assert(path_ok(path));
        lemma_node_bound(dg, path, j);
    }
    assert(input.len() == 8);
    assert(lanes(t[head], 0) =~= input);
    assert forall|j: int|
        #![trigger t[head + j]]
        1 <= j <= 31 implies lanes(t[head + j], 0) == red_seq(
        step_z(j - 1, lanes(t[head + j - 1], 0)),
    ) by {
        let r = head + j - 1;
        let e = row_env(t, pc, pv, r);
        assert(holds(polys(e), r, h));
        lemma_mt_holds(e, n, r, h);
        lemma_mt_env(t, pv, d as int, blocks, r);
        assert(r % 32 == j - 1);
        lemma_steps_follow(t, e, r, 13);
    }
    lemma_block(t, 0, head, 31);
}

/// Whatever trace meets the constraints, the digest of the public leaf folds to the public root along
/// the path that the trace holds.
pub proof fn law_merkle_tile_sound(
    t: Seq<Seq<int>>,
    leaf: Seq<int>,
    root: Seq<int>,
    d: nat,
    blocks: int,
)
    requires
        leaf.len() <= 8,
        root.len() == 4,
        d < blocks,
        t.len() == 32 * blocks,
        canonical_cells(t, 13),
        forall|i: int| 0 <= i < leaf.len() ==> 0 <= #[trigger] leaf[i] < P,
        satisfied(
            |env: Env| mt_polys(env, leaf.len() as int),
            t,
            mt_cols(d as int, blocks),
            leaf + root,
        ),
    ensures
        forall|k: int|
            0 <= k < 4 ==> cong(
                #[trigger] root[k],
                root_of(leaf_digest(leaf), tile_path(t, d))[k],
            ),
{
    let n = leaf.len() as int;
    let polys = |env: Env| mt_polys(env, n);
    let pc = mt_cols(d as int, blocks);
    let pv = leaf + root;
    let r = (32 * d + 31) as int;
    lemma_mt_block(t, leaf, root, d, blocks, d);
    let env = row_env(t, pc, pv, r);
    assert(holds(polys(env), r, t.len() as int));
    lemma_mt_holds(env, n, r, t.len() as int);
    lemma_mt_env(t, pv, d as int, blocks, r);
    lemma_end_polys(env, env.per[12], n);
    assert forall|k: int| 0 <= k < 4 implies cong(
        #[trigger] root[k],
        root_of(leaf_digest(leaf), tile_path(t, d))[k],
    ) by {
        assert(env.pis[n + k] == root[k]);
        assert(take4(lanes(t[r], 0))[k] == t[r][0 + k]);
    }
}

} // verus!
