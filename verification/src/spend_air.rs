//! A spend: the commitment to an opening, folded up a Merkle path to a public root, one permutation
//! block for the commitment and one per level.
use crate::expr::{
    bit_poly, cells, cst, cur, denote, emit_all, Constraint, Env, Expr, gated, Gate, holds,
    lemma_holds_concat, lemma_holds_gated, lemma_scaled, nxt, per, row_env, satisfied, scale_all,
    scaled, Trace, vals, vanish,
};
use crate::field::{cong, ints, lemma_cong_diff, lemma_red_small, red, P};
use crate::fri_merkle::{
    block_cols, canonical_cells, digest_exprs, digest_polys, lemma_block_env, lemma_steps_follow,
    path_ok, periodic,
};
use crate::gadgets::{bit_z, lemma_select};
use crate::merkle::{
    first_half, join, lemma_node_bound, node_after, ordered, ordered_z, root_of, take4, Digest,
};
use crate::poseidon2::{
    lanes, lemma_block, lemma_perm_row_bound, lemma_perm_step, lemma_round_idle,
    lemma_rounds_vanish, native_permute, native_steps, perm, perm_row, red_seq, round_exprs,
    round_polys, step_z,
};
use crate::spend_common::pairs;
use vstd::prelude::*;

verus! {

/// The levels of the path.
pub const DEPTH: usize = 3;

/// The rows of the trace.
pub const HEIGHT: usize = 128;

/// The column of the direction bit.
pub const BIT: usize = 8;

pub const WIDTH: usize = 9;

pub const P_LINK: usize = 11;

pub const N_PERIODIC: usize = 12;

/// The commitment to an opening.
pub open spec fn commit_z(opening: Seq<int>) -> Seq<int> {
    take4(perm(opening + seq![0int, 0, 0, 0]))
}

/// An opening as the input of a permutation.
fn padded(opening: Digest) -> (s: [u64; 8])
    ensures
        ints(s@) == ints(opening@) + seq![0int, 0, 0, 0],
{
    let zero: Digest = [0; 4];
    assert(ints(zero@) =~= seq![0int, 0, 0, 0]);
    join(opening, zero)
}

/// The commitment to an opening.
pub fn commit(opening: Digest) -> (d: Digest)
    ensures
        ints(d@) == commit_z(ints(opening@)),
{
    first_half(native_permute(padded(opening)))
}

/// The root that the commitment to an opening folds to.
pub fn native_root(opening: Digest, sib: &[Digest; 3], bits: &[bool; 3]) -> (r: Digest)
    ensures
        ints(r@) == root_of(commit_z(ints(opening@)), pairs(sib@, bits@)),
{
    let mut node: Digest = commit(opening);
    for d in 0..3
        invariant
            ints(node@) == node_after(commit_z(ints(opening@)), pairs(sib@, bits@), d as nat),
    {
        assert(pairs(sib@, bits@)[d as int] == (ints(sib@[d as int]@), bits@[d as int]));
        node = first_half(native_permute(ordered(node, sib[d], bits[d])));
    }
    node
}

/// The system of a spend. The public values are the root.
pub struct SpendAir;

/// The digest of a block goes into the half of the next input that the next bit picks.
pub open spec fn place_z(c: Seq<int>, n: Seq<int>, i: int) -> int {
    (1 - n[8]) * (n[i] - c[i]) + n[8] * (n[4 + i] - c[i])
}

pub open spec fn place_polys(c: Seq<int>, n: Seq<int>) -> Seq<int> {
    Seq::new(4, |i: int| place_z(c, n, i)).push(bit_z(n[8]))
}

fn place_exprs() -> (r: Vec<Expr>)
    ensures
        r.len() == 5,
        forall|env: Env| #[trigger] vals(r@, env) == place_polys(env.cur, env.nxt),
{
    let b: Expr = nxt(BIT);
    let nb: Expr = cst(1).minus(&b);
    let mut r: Vec<Expr> = Vec::new();
    for i in 0..4
        invariant
            forall|env: Env| #[trigger] b.val(env) == env.nxt[8],
            forall|env: Env| #[trigger] nb.val(env) == 1 - env.nxt[8],
            r.len() == i,
            forall|j: int, env: Env|
                0 <= j < i ==> (#[trigger] r@[j].val(env)) == place_z(env.cur, env.nxt, j),
    {
        let c: Expr = cur(i);
        r.push(nb.times(&nxt(i).minus(&c)).plus(&b.times(&nxt(4 + i).minus(&c))));
    }
    r.push(bit_poly(&b));
    proof {
        assert forall|env: Env| #[trigger] vals(r@, env) == place_polys(env.cur, env.nxt) by {
            assert(vals(r@, env) =~= place_polys(env.cur, env.nxt));
        }
    }
    r
}

/// The second half of the input of the commitment is zero.
pub open spec fn pad_polys(c: Seq<int>) -> Seq<int> {
    seq![c[4], c[5], c[6], c[7]]
}

pub open spec fn spend_polys(env: Env) -> Seq<(Gate, int)> {
    gated(Gate::Transition, round_polys(lanes(env.cur, 0), lanes(env.nxt, 0), env.per)) + gated(
        Gate::Transition,
        scaled(env.per[11], place_polys(env.cur, env.nxt)),
    ) + gated(Gate::First, pad_polys(env.cur)) + gated(Gate::Last, digest_polys(env, 0))
}

impl SpendAir {
    pub fn width(&self) -> (r: usize)
        ensures
            r == WIDTH,
    {
        WIDTH
    }

    pub fn num_public_values(&self) -> (r: usize)
        ensures
            r == 4,
    {
        4
    }

    pub fn num_periodic_columns(&self) -> (r: usize)
        ensures
            r == N_PERIODIC,
    {
        N_PERIODIC
    }

    pub fn periodic_columns(&self) -> (cols: Vec<Vec<u64>>)
        ensures
            cells(cols@) == block_cols(),
    {
        periodic()
    }

    pub fn eval(&self) -> (r: Vec<Constraint>)
        ensures
            forall|env: Env| #[trigger] denote(r@, env) == spend_polys(env),
    {
        let mut out: Vec<Constraint> = Vec::new();
        let rounds: Vec<Expr> = round_exprs(0);
        emit_all(&mut out, Gate::Transition, &rounds);
        let links: Vec<Expr> = scale_all(&per(P_LINK), &place_exprs());
        emit_all(&mut out, Gate::Transition, &links);
        let pad: Vec<Expr> = vec![cur(4), cur(5), cur(6), cur(7)];
        proof {
            assert forall|env: Env| #[trigger] vals(pad@, env) == pad_polys(env.cur) by {
                assert(vals(pad@, env) =~= pad_polys(env.cur));
            }
        }
        emit_all(&mut out, Gate::First, &pad);
        let root: Vec<Expr> = digest_exprs(0);
        emit_all(&mut out, Gate::Last, &root);
        proof {
            assert forall|env: Env| #[trigger] denote(out@, env) == spend_polys(env) by {
                assert(denote(out@, env) =~= spend_polys(env));
            }
        }
        out
    }
}

/// The input of block `k`: the padded opening, then the node and the sibling of each level.
pub open spec fn spend_input(opening: Seq<int>, path: Seq<(Seq<int>, bool)>, k: int) -> Seq<int> {
    if k == 0 {
        opening + seq![0int, 0, 0, 0]
    } else {
        ordered_z(
            node_after(commit_z(opening), path, (k - 1) as nat),
            path[k - 1].0,
            path[k - 1].1,
        )
    }
}

/// Row `j` of block `k`; the head of a level's block carries its direction.
pub open spec fn spend_row(
    opening: Seq<int>,
    path: Seq<(Seq<int>, bool)>,
    k: int,
    j: int,
) -> Seq<int> {
    perm_row(spend_input(opening, path, k), j as nat).push(
        if k > 0 && j == 0 && path[k - 1].1 {
            1
        } else {
            0
        },
    )
}

/// The trace of a spend.
pub open spec fn spend_trace(opening: Seq<int>, path: Seq<(Seq<int>, bool)>) -> Seq<Seq<int>> {
    Seq::new(
        32 * (path.len() + 1),
        |r: int| spend_row(opening, path, r / 32, r % 32),
    )
}

/// Appends the block that permutes `input`; its head carries `bit`.
fn fill_block(t: &mut Trace, input: [u64; 8], bit: bool)
    ensures
        final(t).len() == old(t).len() + 32,
        forall|i: int| 0 <= i < old(t).len() ==> #[trigger] final(t)@[i] == old(t)@[i],
        forall|r: int|
            #![trigger final(t)@[old(t).len() + r]]
            0 <= r < 32 ==> ints(final(t)@[old(t).len() + r]@) == perm_row(
                ints(input@),
                r as nat,
            ).push(
                if r == 0 && bit {
                    1
                } else {
                    0
                },
            ),
{
    let steps: Vec<[u64; 8]> = native_steps(input);
    let ghost n = t.len() as int;
    for r in 0..32
        invariant
            steps.len() == 32,
            n == old(t).len(),
            t.len() == n + r,
            forall|i: int| 0 <= i < n ==> #[trigger] t@[i] == old(t)@[i],
            forall|j: int|
                0 <= j < 32 ==> ints((#[trigger] steps@[j])@) == perm_row(ints(input@), j as nat),
            forall|j: int|
                #![trigger t@[n + j]]
                0 <= j < r ==> ints(t@[n + j]@) == perm_row(ints(input@), j as nat).push(
                    if j == 0 && bit {
                        1
                    } else {
                        0
                    },
                ),
    {
        let b: u64 = if r == 0 && bit {
            1
        } else {
            0
        };
        let s: [u64; 8] = steps[r];
        let row: Vec<u64> = vec![s[0], s[1], s[2], s[3], s[4], s[5], s[6], s[7], b];
        assert(ints(row@) =~= ints(s@).push(b as int));
        t.push(row);
    }
}

/// Fills the trace of a spend.
pub fn build_trace(opening: Digest, sib: &[Digest; 3], bits: &[bool; 3]) -> (t: Trace)
    ensures
        cells(t@) == spend_trace(ints(opening@), pairs(sib@, bits@)),
{
    let ghost (o, p) = (ints(opening@), pairs(sib@, bits@));
    let mut t: Trace = Vec::new();
    fill_block(&mut t, padded(opening), false);
    proof {
        assert forall|i: int| 0 <= i < 32 implies ints((#[trigger] t@[i])@) == spend_row(
            o,
            p,
            i / 32,
            i % 32,
        ) by {
            assert(t@[0 + i] == t@[i]);
        }
    }
    let mut node: Digest = commit(opening);
    for d in 0..3
        invariant
            o == ints(opening@),
            p == pairs(sib@, bits@),
            ints(node@) == node_after(commit_z(o), p, d as nat),
            t.len() == 32 * (d + 1),
            forall|i: int|
                0 <= i < t.len() ==> ints((#[trigger] t@[i])@) == spend_row(o, p, i / 32, i % 32),
    {
        assert(p[d as int] == (ints(sib@[d as int]@), bits@[d as int]));
        let input: [u64; 8] = ordered(node, sib[d], bits[d]);
        let ghost before = t@;
        fill_block(&mut t, input, bits[d]);
        node = first_half(native_permute(input));
        proof {
            assert forall|i: int| 0 <= i < t.len() implies ints((#[trigger] t@[i])@) == spend_row(
                o,
                p,
                i / 32,
                i % 32,
            ) by {
                if i < before.len() {
                    assert(t@[i] == before[i]);
                } else {
                    assert(t@[before.len() + (i - before.len())] == t@[i]);
                    assert(i / 32 == d + 1 && i % 32 == i - before.len());
                }
            }
        }
    }
    assert(cells(t@) =~= spend_trace(o, p));
    t
}

/// The constraints at a row, group by group.
proof fn lemma_spend_holds(env: Env, r: int, h: int)
    ensures
        holds(spend_polys(env), r, h) <==> {
            &&& r != h - 1 ==> vanish(round_polys(lanes(env.cur, 0), lanes(env.nxt, 0), env.per))
            &&& r != h - 1 ==> vanish(scaled(env.per[11], place_polys(env.cur, env.nxt)))
            &&& r == 0 ==> vanish(pad_polys(env.cur))
            &&& r == h - 1 ==> vanish(digest_polys(env, 0))
        },
{
    let rounds = round_polys(lanes(env.cur, 0), lanes(env.nxt, 0), env.per);
    let link = scaled(env.per[11], place_polys(env.cur, env.nxt));
    let g1 = gated(Gate::Transition, rounds);
    let g2 = gated(Gate::Transition, link);
    let g3 = gated(Gate::First, pad_polys(env.cur));
    let g4 = gated(Gate::Last, digest_polys(env, 0));
    lemma_holds_gated(Gate::Transition, rounds, r, h);
    lemma_holds_gated(Gate::Transition, link, r, h);
    lemma_holds_gated(Gate::First, pad_polys(env.cur), r, h);
    lemma_holds_gated(Gate::Last, digest_polys(env, 0), r, h);
    lemma_holds_concat(g1, g2, r, h);
    lemma_holds_concat(g1 + g2, g3, r, h);
    lemma_holds_concat(g1 + g2 + g3, g4, r, h);
}

proof fn lemma_spend_row(opening: Seq<int>, path: Seq<(Seq<int>, bool)>, r: int)
    requires
        opening.len() == 4,
        path_ok(path),
        0 <= r < 32 * (path.len() + 1),
    ensures
        ({
            let row = spend_trace(opening, path)[r];
            let (k, j) = (r / 32, r % 32);
            let input = spend_input(opening, path, k);
            &&& input.len() == 8
            &&& lanes(row, 0) == perm_row(input, j as nat)
            &&& forall|i: int| 0 <= i < 8 ==> #[trigger] row[i] == perm_row(input, j as nat)[i]
            &&& row[8] == (if k > 0 && j == 0 && path[k - 1].1 {
                1int
            } else {
                0int
            })
        }),
{
    let (k, j) = (r / 32, r % 32);
    let input = spend_input(opening, path, k);
    let c = opening + seq![0int, 0, 0, 0];
    if k > 0 {
        lemma_perm_row_bound(c, 31);
        lemma_node_bound(commit_z(opening), path, (k - 1) as nat);
        assert(path[k - 1].0.len() == 4);
    }
    assert(input.len() == 8);
    lemma_perm_row_bound(input, j as nat);
    let row = spend_trace(opening, path)[r];
    assert(row == spend_row(opening, path, k, j));
    assert(lanes(row, 0) =~= perm_row(input, j as nat));
}

proof fn lemma_spend_row_holds(
    opening: Seq<int>,
    path: Seq<(Seq<int>, bool)>,
    root: Seq<int>,
    r: int,
)
    requires
        opening.len() == 4,
        root.len() == 4,
        path_ok(path),
        0 <= r < 32 * (path.len() + 1),
        forall|i: int|
            0 <= i < 4 ==> cong(#[trigger] root[i], root_of(commit_z(opening), path)[i]),
    ensures
        holds(
            spend_polys(row_env(spend_trace(opening, path), block_cols(), root, r)),
            r,
            32 * (path.len() + 1) as int,
        ),
{
    let t = spend_trace(opening, path);
    let h = 32 * (path.len() + 1) as int;
    let env = row_env(t, block_cols(), root, r);
    let (k, j) = (r / 32, r % 32);
    let input = spend_input(opening, path, k);
    lemma_spend_holds(env, r, h);
    lemma_block_env(t, root, r);
    lemma_spend_row(opening, path, r);
    let c = lanes(env.cur, 0);
    let n = lanes(env.nxt, 0);
    let place = place_polys(env.cur, env.nxt);
    // the digest of block k
    let node = node_after(commit_z(opening), path, k as nat);
    assert(node == take4(perm(input)));
    if r != h - 1 {
        lemma_spend_row(opening, path, r + 1);
        lemma_scaled(env.per[11], place);
        if j < 31 {
            assert((r + 1) / 32 == k && (r + 1) % 32 == j + 1);
            lemma_rounds_vanish(input, env.per, j as nat);
        } else {
            assert((r + 1) / 32 == k + 1 && (r + 1) % 32 == 0);
            lemma_round_idle(c, n, env.per);
            assert(vanish(round_polys(c, n, env.per)));
            let (sib, right) = path[k];
            assert(path[k].0.len() == 4);
            let next = spend_input(opening, path, k + 1);
            lemma_perm_step(next, 0);
            assert(next == ordered_z(node, sib, right));
            assert forall|i: int| 0 <= i < 5 implies red(#[trigger] place[i]) == 0 by {
                if i < 4 {
                    assert(env.cur[i] == node[i]);
                    assert(env.nxt[i] == next[i] && env.nxt[4 + i] == next[4 + i]);
                    lemma_select(env.nxt[8], env.nxt[i] - env.cur[i], env.nxt[4 + i] - env.cur[i]);
                    assert(place[i] == 0);
                } else {
                    assert(bit_z(env.nxt[8]) == 0);
                }
            }
        }
    } else {
        assert(k == path.len() && j == 31);
        assert forall|i: int| 0 <= i < 4 implies red(#[trigger] digest_polys(env, 0)[i]) == 0 by {
            lemma_cong_diff(env.cur[i], root[i]);
            assert(env.cur[i] == node[i]);
        }
    }
    if r == 0 {
        lemma_perm_step(input, 0);
        let s = pad_polys(env.cur);
        assert(env.cur[4] == input[4] && env.cur[5] == input[5] && env.cur[6] == input[6]
            && env.cur[7] == input[7]);
        assert(s[0] == 0 && s[1] == 0 && s[2] == 0 && s[3] == 0);
    }
}

/// The trace of a spend meets the constraints exactly for the root that its commitment folds to.
pub proof fn law_spend_complete(opening: Seq<int>, path: Seq<(Seq<int>, bool)>, root: Seq<int>)
    requires
        opening.len() == 4,
        root.len() == 4,
        path_ok(path),
    ensures
        satisfied(
            |env: Env| spend_polys(env),
            spend_trace(opening, path),
            block_cols(),
            root,
        ) <==> forall|i: int|
            0 <= i < 4 ==> cong(#[trigger] root[i], root_of(commit_z(opening), path)[i]),
{
    let t = spend_trace(opening, path);
    let h = 32 * (path.len() + 1) as int;
    let polys = |env: Env| spend_polys(env);
    if forall|i: int| 0 <= i < 4 ==> cong(#[trigger] root[i], root_of(commit_z(opening), path)[i]) {
        assert forall|r: int|
            #![trigger row_env(t, block_cols(), root, r)]
            0 <= r < t.len() implies holds(
            polys(row_env(t, block_cols(), root, r)),
            r,
            t.len() as int,
        ) by {
            lemma_spend_row_holds(opening, path, root, r);
        }
    }
    if satisfied(polys, t, block_cols(), root) {
        let r = h - 1;
        let env = row_env(t, block_cols(), root, r);
        assert(holds(polys(env), r, t.len() as int));
        lemma_spend_holds(env, r, h);
        lemma_spend_row(opening, path, r);
        let k = path.len() as int;
        assert(r / 32 == k && r % 32 == 31);
        assert(node_after(commit_z(opening), path, k as nat) == take4(
            perm(spend_input(opening, path, k)),
        ));
        let last = digest_polys(env, 0);
        assert forall|i: int| 0 <= i < 4 implies cong(
            #[trigger] root[i],
            root_of(commit_z(opening), path)[i],
        ) by {
            assert(red(last[i]) == 0);
            lemma_cong_diff(env.cur[i], root[i]);
        }
    }
}

/// The opening that a trace holds: the first half of its first row.
pub open spec fn trace_opening(t: Seq<Seq<int>>) -> Seq<int> {
    take4(t[0])
}

/// The path of `d` levels that a trace holds at the heads of its blocks: the direction, and the
/// half of the input that the direction leaves free.
pub open spec fn trace_levels(t: Seq<Seq<int>>, d: nat) -> Seq<(Seq<int>, bool)> {
    Seq::new(
        d,
        |i: int|
            {
                let row = t[32 * (i + 1)];
                (
                    Seq::new(
                        4,
                        |k: int|
                            row[if row[8] == 1 {
                                k
                            } else {
                                4 + k
                            }],
                    ),
                    row[8] == 1,
                )
            },
    )
}

proof fn lemma_spend_block(t: Seq<Seq<int>>, root: Seq<int>, d: nat, k: nat)
    requires
        t.len() == 32 * (d + 1),
        k <= d,
        root.len() == 4,
        canonical_cells(t, 9),
        satisfied(|env: Env| spend_polys(env), t, block_cols(), root),
    ensures
        take4(lanes(t[(32 * k + 31) as int], 0)) == node_after(
            commit_z(trace_opening(t)),
            trace_levels(t, d),
            k,
        ),
    decreases k,
{
    let polys = |env: Env| spend_polys(env);
    let h = t.len() as int;
    let path = trace_levels(t, d);
    let head = 32 * k as int;
    let opening = trace_opening(t);
    let input = spend_input(opening, path, k as int);
    if k == 0 {
        let env = row_env(t, block_cols(), root, 0);
        assert(holds(polys(env), 0, h));
        lemma_spend_holds(env, 0, h);
        let s = pad_polys(env.cur);
        assert forall|i: int| 0 <= i < 4 implies #[trigger] t[0][4 + i] == 0 by {
            assert(red(s[i]) == 0);
            assert(0 <= t[0][4 + i] < P);
            lemma_red_small(t[0][4 + i]);
        }
        assert forall|i: int| 0 <= i < 8 implies #[trigger] lanes(t[head], 0)[i] == input[i] by {
            if i >= 4 {
                assert(t[0][4 + (i - 4)] == 0);
            }
        }
    } else {
        let j = (k - 1) as nat;
        lemma_spend_block(t, root, d, j);
        let e = row_env(t, block_cols(), root, head - 1);
        assert(holds(polys(e), head - 1, h));
        lemma_spend_holds(e, head - 1, h);
        lemma_block_env(t, root, head - 1);
        assert((head - 1) % 32 == 31);
        let place = place_polys(e.cur, e.nxt);
        lemma_scaled(e.per[11], place);
        assert(vanish(place));
        assert(32 * j + 31 == head - 1);
        let node = node_after(commit_z(opening), path, j);
        let b = t[head][8];
        assert(red(place[4]) == 0);
        crate::prime::law_bits(b);
        assert(0 <= b < P);
        lemma_red_small(b);
        let (sib, right) = path[k - 1];
        assert(32 * ((k - 1) + 1) == head);
        assert forall|i: int| 0 <= i < 8 implies #[trigger] lanes(t[head], 0)[i] == input[i] by {
            let m = i % 4;
            assert(red(place[m]) == 0);
            lemma_select(b, t[head][m] - t[head - 1][m], t[head][4 + m] - t[head - 1][m]);
            assert(node[m] == t[head - 1][m]) by {
                assert(take4(lanes(t[head - 1], 0))[m] == t[head - 1][0 + m]);
            }
            assert(0 <= t[head][m] < P && 0 <= t[head][4 + m] < P && 0 <= t[head - 1][m] < P);
            let x = t[head][if right { 4 + m } else { m }];
            lemma_cong_diff(x, node[m]);
            lemma_red_small(x);
            lemma_red_small(node[m]);
            assert(x == node[m]);
        }
    }
    assert(input.len() == 8) by {
        if k > 0 {
            lemma_perm_row_bound(opening + seq![0int, 0, 0, 0], 31);
            assert(path_ok(path));
            lemma_node_bound(commit_z(opening), path, (k - 1) as nat);
        }
    }
    assert(lanes(t[head], 0) =~= input);
    assert forall|j: int|
        #![trigger t[head + j]]
        1 <= j <= 31 implies lanes(t[head + j], 0) == red_seq(
        step_z(j - 1, lanes(t[head + j - 1], 0)),
    ) by {
        let r = head + j - 1;
        let e = row_env(t, block_cols(), root, r);
        assert(holds(polys(e), r, h));
        lemma_spend_holds(e, r, h);
        lemma_block_env(t, root, r);
        assert(r % 32 == j - 1);
        lemma_steps_follow(t, e, r, 9);
    }
    lemma_block(t, 0, head, 31);
}

/// Whatever trace meets the constraints, the public root is what the commitment to its opening
/// folds to along its path.
pub proof fn law_spend_sound(t: Seq<Seq<int>>, root: Seq<int>, d: nat)
    requires
        t.len() == 32 * (d + 1),
        root.len() == 4,
        canonical_cells(t, 9),
        satisfied(|env: Env| spend_polys(env), t, block_cols(), root),
    ensures
        forall|i: int|
            0 <= i < 4 ==> cong(
                #[trigger] root[i],
                root_of(commit_z(trace_opening(t)), trace_levels(t, d))[i],
            ),
{
    let polys = |env: Env| spend_polys(env);
    let h = t.len() as int;
    lemma_spend_block(t, root, d, d);
    let env = row_env(t, block_cols(), root, h - 1);
    assert(holds(polys(env), h - 1, h));
    lemma_spend_holds(env, h - 1, h);
    assert forall|i: int| 0 <= i < 4 implies cong(
        #[trigger] root[i],
        root_of(commit_z(trace_opening(t)), trace_levels(t, d))[i],
    ) by {
        assert(red(digest_polys(env, 0)[i]) == 0);
        lemma_cong_diff(env.cur[i], root[i]);
        assert(take4(lanes(t[h - 1], 0))[i] == t[h - 1][0 + i]);
        assert(32 * d + 31 == h - 1);
    }
}

} // verus!
