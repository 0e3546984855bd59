//! Merkle openings: trees, authentication paths, and the constraint system that recomputes a root
//! along a path, one permutation block per level.
use crate::cols::{is_pow2, last_col, last_z};
use crate::expr::{
    bit_poly, cells, cst, cur, denote, emit, emit_all, Constraint, Env, Expr, gated, Gate, holds,
    lemma_holds_concat, lemma_holds_gated, lemma_holds_push, lemma_scaled, nxt, per, pis, row_env,
    satisfied, scale_all, scaled, Trace, vals, vanish,
};
use crate::field::{cong, ints, lemma_cong_diff, lemma_red_small, red, P};
use crate::gadgets::{bit_z, lemma_link, lemma_select, link_exprs, link_polys};
use crate::merkle::{
    first_half, lemma_node_bound, merge, merge_z, node_after, ordered, ordered_z, path_z, root_of,
    take4, Digest, DIGEST,
};
use crate::poseidon2::{
    lanes, lemma_block, lemma_perm_row_bound, lemma_perm_step, lemma_round, lemma_rounds_vanish,
    lemma_round_idle, native_permute, native_steps, perm, perm_row, periodic_table, red_seq,
    round_col, round_exprs, round_polys, round_row, step_z, BLOCK, ROUND_COLS,
};
use vstd::prelude::*;

verus! {

pub const SIB: usize = 8;

pub const BIT: usize = 12;

pub const WIDTH: usize = 13;

pub const P_BLOCK_LAST: usize = 11;

pub const N_PERIODIC: usize = 12;

/// A path from a public leaf to a public root, one block per level.
pub struct FriMerkleAir;

/// The first block takes the public leaf and the first sibling, in the order of the first bit.
pub open spec fn leaf_input_z(env: Env, j: int) -> int {
    let (k, b) = (j / 2, env.cur[12]);
    if j % 2 == 0 {
        env.cur[k] - ((1 - b) * env.pis[k] + b * env.cur[8 + k])
    } else {
        env.cur[4 + k] - ((1 - b) * env.cur[8 + k] + b * env.pis[k])
    }
}

pub open spec fn leaf_input_polys(env: Env) -> Seq<int> {
    Seq::new(8, |j: int| leaf_input_z(env, j))
}

/// Digest cells against the public values at `at`.
pub open spec fn digest_polys(env: Env, at: int) -> Seq<int> {
    Seq::new(4, |k: int| env.cur[k] - env.pis[at + k])
}

pub open spec fn merkle_polys(env: Env) -> Seq<(Gate, int)> {
    gated(Gate::Transition, round_polys(lanes(env.cur, 0), lanes(env.nxt, 0), env.per)).push(
        (Gate::Always, bit_z(env.cur[12])),
    ) + gated(Gate::First, leaf_input_polys(env)) + gated(
        Gate::Transition,
        scaled(env.per[11], link_polys(env.cur, env.nxt, 8, 12)),
    ) + gated(Gate::Last, digest_polys(env, 4))
}

fn leaf_input_exprs() -> (r: Vec<Expr>)
    ensures
        r.len() == 8,
        forall|env: Env| #[trigger] vals(r@, env) == leaf_input_polys(env),
{
    let mut r: Vec<Expr> = Vec::new();
    let b: Expr = cur(BIT);
    let nb: Expr = cst(1).minus(&b);
    for k in 0..4
        invariant
            forall|env: Env| #[trigger] b.val(env) == env.cur[12],
            forall|env: Env| #[trigger] nb.val(env) == 1 - env.cur[12],
            r.len() == 2 * k,
            forall|j: int, env: Env|
                0 <= j < 2 * k ==> (#[trigger] r@[j].val(env)) == leaf_input_z(env, j),
    {
        let s: Expr = cur(SIB + k);
        let l: Expr = pis(k);
        r.push(cur(k).minus(&nb.times(&l).plus(&b.times(&s))));
        r.push(cur(4 + k).minus(&nb.times(&s).plus(&b.times(&l))));
    }
    proof {
        assert forall|env: Env| #[trigger]
            vals(r@, env) == leaf_input_polys(env) by {
            assert(vals(r@, env) =~= leaf_input_polys(env));
        }
    }
    r
}

/// Digest cells against public values.
pub fn digest_exprs(at: usize) -> (r: Vec<Expr>)
    requires
        at + 4 <= usize::MAX,
    ensures
        r.len() == 4,
        forall|env: Env|
            #[trigger] vals(r@, env) == digest_polys(env, at as int),
{
    let mut r: Vec<Expr> = Vec::new();
    for k in 0..4
        invariant
            at + 4 <= usize::MAX,
            r.len() == k,
            forall|j: int, env: Env|
                0 <= j < k ==> (#[trigger] r@[j].val(env)) == env.cur[j] - env.pis[at + j],
    {
        r.push(cur(k).minus(&pis(at + k)));
    }
    proof {
        assert forall|env: Env| #[trigger]
            vals(r@, env) == digest_polys(env, at as int) by {
            assert(vals(r@, env) =~= digest_polys(env, at as int));
        }
    }
    r
}

/// The periodic columns of a chain of blocks: the round columns, and the last row of each block.
pub open spec fn block_cols() -> Seq<Seq<int>> {
    Seq::new(
        12,
        |j: int|
            Seq::new(
                32,
                |k: int|
                    if j < 11 {
                        round_col(j, k)
                    } else {
                        last_z(k)
                    },
            ),
    )
}

/// The periodic columns of a chain of blocks.
pub fn periodic() -> (cols: Vec<Vec<u64>>)
    ensures
        cells(cols@) == block_cols(),
{
    let mut cols: Vec<Vec<u64>> = periodic_table();
    cols.push(last_col(BLOCK));
    proof {
        assert forall|j: int| 0 <= j < 12 implies #[trigger] cells(cols@)[j] == block_cols()[j] by {
            assert(cells(cols@)[j] =~= block_cols()[j]);
        }
        assert(cells(cols@) =~= block_cols());
    }
    cols
}

impl FriMerkleAir {
    pub fn width(&self) -> (r: usize)
        ensures
            r == WIDTH,
    {
        WIDTH
    }

    pub fn num_public_values(&self) -> (r: usize)
        ensures
            r == 8,
    {
        2 * DIGEST
    }

    pub fn num_periodic_columns(&self) -> (r: usize)
        ensures
            r == N_PERIODIC,
    {
        N_PERIODIC
    }

    pub fn periodic_columns(&self) -> (cols: Vec<Vec<u64>>)
        ensures
            cells(cols@) == block_cols(),
    {
        periodic()
    }

    pub fn eval(&self) -> (r: Vec<Constraint>)
        ensures
            forall|env: Env| #[trigger] denote(r@, env) == merkle_polys(env),
    {
        let mut out: Vec<Constraint> = Vec::new();
        let rounds: Vec<Expr> = round_exprs(0);
        emit_all(&mut out, Gate::Transition, &rounds);
        emit(&mut out, Gate::Always, bit_poly(&cur(BIT)));
        let input: Vec<Expr> = leaf_input_exprs();
        emit_all(&mut out, Gate::First, &input);
        let links: Vec<Expr> = scale_all(&per(P_BLOCK_LAST), &link_exprs(SIB, BIT));
        emit_all(&mut out, Gate::Transition, &links);
        let root: Vec<Expr> = digest_exprs(4);
        emit_all(&mut out, Gate::Last, &root);
        proof {
            assert forall|env: Env| #[trigger] denote(out@, env) == merkle_polys(env) by {
                assert(denote(out@, env) =~= merkle_polys(env));
            }
        }
        out
    }
}

/// The node of a tree over `leaves` at a level and a position.
pub open spec fn tree_node(leaves: Seq<Digest>, level: nat, i: int) -> Seq<int>
    decreases level,
{
    if level == 0 {
        ints(leaves[i]@)
    } else {
        merge_z(
            tree_node(leaves, (level - 1) as nat, 2 * i),
            tree_node(leaves, (level - 1) as nat, 2 * i + 1),
        )
    }
}

/// The number of nodes at a level of a tree over `n` leaves.
pub open spec fn level_len(n: int, level: nat) -> int
    decreases level,
{
    if level == 0 {
        n
    } else {
        level_len(n, (level - 1) as nat) / 2
    }
}

/// Whether `levels` is the Merkle tree over `leaves`, the leaves first and the root last.
pub open spec fn is_tree(levels: Seq<Vec<Digest>>, leaves: Seq<Digest>) -> bool {
    &&& levels.len() > 0
    &&& forall|l: int|
        #![trigger levels[l]]
        0 <= l < levels.len() ==> levels[l].len() == level_len(leaves.len() as int, l as nat)
    &&& level_len(leaves.len() as int, (levels.len() - 1) as nat) == 1
    &&& forall|l: int, i: int|
        #![trigger levels[l]@[i]]
        0 <= l < levels.len() && 0 <= i < levels[l].len() ==> ints(levels[l]@[i]@) == tree_node(
            leaves,
            l as nat,
            i,
        )
}

proof fn lemma_pow2_level(n: int, l: nat)
    requires
        is_pow2(n),
        level_len(n, l) >= 1,
    ensures
        is_pow2(level_len(n, l)),
    decreases l,
{
    if l > 0 {
        let m = level_len(n, (l - 1) as nat);
        lemma_pow2_level(n, (l - 1) as nat);
        assert(m / 2 >= 1);
    }
}

fn copy_digests(v: &[Digest]) -> (r: Vec<Digest>)
    ensures
        r@ == v@,
{
    let mut r: Vec<Digest> = Vec::new();
    let n: usize = v.len();
    for i in 0..n
        invariant
            n == v.len(),
            r.len() == i,
            forall|j: int| 0 <= j < i ==> #[trigger] r@[j] == v@[j],
    {
        r.push(v[i]);
    }
    assert(r@ =~= v@);
    r
}

/// The Merkle tree over a power-of-two number of leaves.
pub fn build_tree(leaves: &[Digest]) -> (levels: Vec<Vec<Digest>>)
    requires
        is_pow2(leaves@.len() as int),
    ensures
        is_tree(levels@, leaves@),
{
    let mut levels: Vec<Vec<Digest>> = Vec::new();
    levels.push(copy_digests(leaves));
    let mut len: usize = leaves.len();
    while len > 1
        invariant
            is_pow2(leaves@.len() as int),
            len >= 1,
            levels.len() >= 1,
            len == levels@[levels.len() - 1].len(),
            forall|l: int|
                #![trigger levels@[l]]
                0 <= l < levels.len() ==> levels@[l].len() == level_len(
                    leaves@.len() as int,
                    l as nat,
                ),
            forall|l: int, i: int|
                #![trigger levels@[l]@[i]]
                0 <= l < levels.len() && 0 <= i < levels@[l].len() ==> ints(levels@[l]@[i]@)
                    == tree_node(leaves@, l as nat, i),
        decreases len,
    {
        let top: usize = levels.len() - 1;
        let half: usize = len / 2;
        proof {
            lemma_pow2_level(leaves@.len() as int, top as nat);
            assert(len == level_len(leaves@.len() as int, top as nat));
            assert(len % 2 == 0);
        }
        let mut next: Vec<Digest> = Vec::new();
        for i in 0..half
            invariant
                top == levels.len() - 1,
                len == levels@[top as int].len(),
                len == 2 * half,
                next.len() == i,
                forall|l: int, k: int|
                    #![trigger levels@[l]@[k]]
                    0 <= l < levels.len() && 0 <= k < levels@[l].len() ==> ints(levels@[l]@[k]@)
                        == tree_node(leaves@, l as nat, k),
                forall|k: int|
                    #![trigger next@[k]]
                    0 <= k < i ==> ints(next@[k]@) == tree_node(leaves@, (top + 1) as nat, k),
        {
            let l: Digest = levels[top][2 * i];
            let r: Digest = levels[top][2 * i + 1];
            assert(ints(levels@[top as int]@[2 * i]@) == tree_node(leaves@, top as nat, 2 * i));
            assert(ints(levels@[top as int]@[2 * i + 1]@) == tree_node(
                leaves@,
                top as nat,
                2 * i + 1,
            ));
            next.push(merge(l, r));
        }
        let ghost before = levels@;
        levels.push(next);
        proof {
            assert forall|l: int, i: int|
                #![trigger levels@[l]@[i]]
                0 <= l < levels.len() && 0 <= i < levels@[l].len() implies ints(levels@[l]@[i]@)
                == tree_node(leaves@, l as nat, i) by {
                if l < before.len() {
                    assert(levels@[l] == before[l]);
                    assert(ints(before[l]@[i]@) == tree_node(leaves@, l as nat, i));
                } else {
                    assert(levels@[l]@[i] == next@[i]);
                }
            }
        }
        len = half;
    }
    levels
}

/// The step that a position takes up one level: its sibling, and whether it is a right child.
pub open spec fn sibling_index(i: int) -> int {
    if i % 2 == 1 {
        i - 1
    } else {
        i + 1
    }
}

/// The position above position `i`, `k` levels up.
pub open spec fn ancestor(i: int, k: nat) -> int
    decreases k,
{
    if k == 0 {
        i
    } else {
        ancestor(i, (k - 1) as nat) / 2
    }
}

/// Whether every sibling on the way up from position `i` is there.
pub open spec fn can_open(levels: Seq<Vec<Digest>>, i: int) -> bool {
    &&& levels.len() > 0
    &&& 0 <= i < levels[0].len()
    &&& levels[levels.len() - 1].len() > 0
    &&& forall|k: int|
        #![trigger levels[k]]
        0 <= k < levels.len() - 1 ==> sibling_index(ancestor(i, k as nat)) < levels[k].len()
}

/// The siblings on the way up from position `i`, each with whether the node is a right child.
pub open spec fn auth_path(levels: Seq<Vec<Digest>>, i: int) -> Seq<(Seq<int>, bool)> {
    Seq::new(
        (levels.len() - 1) as nat,
        |k: int|
            (
                ints(levels[k]@[sibling_index(ancestor(i, k as nat))]@),
                ancestor(i, k as nat) % 2 == 1,
            ),
    )
}

pub proof fn lemma_ancestor(n: int, i: int, k: nat)
    requires
        is_pow2(n),
        0 <= i < n,
        level_len(n, k) >= 1,
    ensures
        0 <= ancestor(i, k) < level_len(n, k),
        is_pow2(level_len(n, k)),
    decreases k,
{
    lemma_pow2_level(n, k);
    if k > 0 {
        lemma_ancestor(n, i, (k - 1) as nat);
    }
}

pub proof fn lemma_level_mono(n: int, a: nat, b: nat)
    requires
        n >= 1,
        a <= b,
    ensures
        level_len(n, b) <= level_len(n, a),
        0 <= level_len(n, b),
        a < b && level_len(n, b) >= 1 ==> level_len(n, a) >= 2,
    decreases b,
{
    if a < b {
        lemma_level_mono(n, a, (b - 1) as nat);
    } else if a > 0 {
        lemma_level_mono(n, (a - 1) as nat, (b - 1) as nat);
    }
}

/// The leaf at `idx`, its authentication path, and the root.
pub fn opening(levels: &[Vec<Digest>], idx: usize) -> (r: (Digest, Vec<(Digest, bool)>, Digest))
    requires
        can_open(levels@, idx as int),
    ensures
        r.0 == levels@[0]@[idx as int],
        path_z(r.1@) == auth_path(levels@, idx as int),
        r.2 == levels@[levels@.len() - 1]@[0],
{
    let mut path: Vec<(Digest, bool)> = Vec::new();
    let top: usize = levels.len() - 1;
    let mut i: usize = idx;
    for k in 0..top
        invariant
            can_open(levels@, idx as int),
            top == levels@.len() - 1,
            i == ancestor(idx as int, k as nat),
            path.len() == k,
            forall|j: int|
                0 <= j < k ==> path_z(path@)[j] == #[trigger] auth_path(levels@, idx as int)[j],
    {
        assert(sibling_index(ancestor(idx as int, k as nat)) < levels@[k as int].len());
        let right: bool = i % 2 == 1;
        let sib: Digest = if right {
            levels[k][i - 1]
        } else {
            levels[k][i + 1]
        };
        let ghost before = path@;
        path.push((sib, right));
        proof {
            assert forall|j: int| 0 <= j < k + 1 implies path_z(path@)[j] == #[trigger] auth_path(
                levels@,
                idx as int,
            )[j] by {
                if j < k {
                    assert(path_z(before)[j] == auth_path(levels@, idx as int)[j]);
                }
            }
        }
        i = i / 2;
    }
    assert(path_z(path@) =~= auth_path(levels@, idx as int));
    (levels[0][idx], path, levels[top][0])
}

/// The nodes on the way up from a leaf are what its path folds to.
proof fn lemma_path_nodes(levels: Seq<Vec<Digest>>, leaves: Seq<Digest>, i: int, k: nat)
    requires
        is_tree(levels, leaves),
        is_pow2(leaves.len() as int),
        0 <= i < leaves.len(),
        k < levels.len(),
    ensures
        node_after(ints(levels[0]@[i]@), auth_path(levels, i), k) == tree_node(
            leaves,
            k,
            ancestor(i, k),
        ),
        0 <= ancestor(i, k) < level_len(leaves.len() as int, k),
    decreases k,
{
    let n = leaves.len() as int;
    lemma_level_mono(n, k, (levels.len() - 1) as nat);
    lemma_ancestor(n, i, k);
    assert(levels[0].len() == level_len(n, 0));
    if k == 0 {
        assert(ints(levels[0]@[i]@) == tree_node(leaves, 0, i));
    } else {
        let j = (k - 1) as nat;
        lemma_path_nodes(levels, leaves, i, j);
        lemma_level_mono(n, j, (levels.len() - 1) as nat);
        lemma_ancestor(n, i, j);
        let (a, b) = (ancestor(i, j), ancestor(i, k));
        let s = sibling_index(a);
        assert(level_len(n, j) >= 2 && level_len(n, j) % 2 == 0);
        assert(levels[j as int].len() == level_len(n, j));
        assert(ints(levels[j as int]@[s]@) == tree_node(leaves, j, s));
        assert(auth_path(levels, i)[k - 1] == (tree_node(leaves, j, s), a % 2 == 1));
        if a % 2 == 1 {
            assert(2 * b == s && 2 * b + 1 == a);
        } else {
            assert(2 * b == a && 2 * b + 1 == s);
        }
    }
}

/// Every leaf of a tree can be opened, and folds to the root along its path.
pub proof fn law_opening_folds_to_root(levels: Seq<Vec<Digest>>, leaves: Seq<Digest>, i: int)
    requires
        is_tree(levels, leaves),
        is_pow2(leaves.len() as int),
        0 <= i < leaves.len(),
    ensures
        can_open(levels, i),
        root_of(ints(levels[0]@[i]@), auth_path(levels, i)) == ints(
            levels[levels.len() - 1]@[0]@,
        ),
{
    let n = leaves.len() as int;
    let top = (levels.len() - 1) as nat;
    lemma_path_nodes(levels, leaves, i, top);
    assert(levels[0].len() == level_len(n, 0));
    assert(levels[top as int].len() == 1);
    assert forall|k: int|
        #![trigger levels[k]]
        0 <= k < levels.len() - 1 implies sibling_index(ancestor(i, k as nat)) < levels[k].len() by {
        lemma_path_nodes(levels, leaves, i, k as nat);
        lemma_level_mono(n, k as nat, top);
        lemma_ancestor(n, i, k as nat);
    }
    assert(ints(levels[top as int]@[0]@) == tree_node(leaves, top, 0));
}

/// Row `r` of the block of level `k`: a row of the permutation, the sibling, the direction.
pub open spec fn merkle_row(
    leaf: Seq<int>,
    path: Seq<(Seq<int>, bool)>,
    k: int,
    r: int,
) -> Seq<int> {
    let (sib, right) = path[k];
    let input = ordered_z(node_after(leaf, path, k as nat), sib, right);
    perm_row(input, r as nat) + sib + seq![if right {
        1int
    } else {
        0int
    }]
}

/// The trace of a path: one block per level.
pub open spec fn merkle_trace(leaf: Seq<int>, path: Seq<(Seq<int>, bool)>) -> Seq<Seq<int>> {
    Seq::new(32 * path.len(), |r: int| merkle_row(leaf, path, r / 32, r % 32))
}

/// A row of a permutation, a sibling and a direction.
pub fn merkle_cells(lanes: &[u64; 8], sib: &Digest, right: bool) -> (row: Vec<u64>)
    ensures
        ints(row@) == ints(lanes@) + ints(sib@) + seq![if right {
            1int
        } else {
            0int
        }],
{
    let bit: u64 = if right {
        1
    } else {
        0
    };
    let row: Vec<u64> = vec![
        lanes[0],
        lanes[1],
        lanes[2],
        lanes[3],
        lanes[4],
        lanes[5],
        lanes[6],
        lanes[7],
        sib[0],
        sib[1],
        sib[2],
        sib[3],
        bit,
    ];
    assert(ints(row@) =~= ints(lanes@) + ints(sib@) + seq![bit as int]);
    row
}

/// Fills the trace of a path.
pub fn build_trace(leaf: Digest, path: &[(Digest, bool)]) -> (t: Trace)
    ensures
        cells(t@) == merkle_trace(ints(leaf@), path_z(path@)),
{
    let mut t: Trace = Vec::new();
    let mut node: Digest = leaf;
    let n: usize = path.len();
    let ghost (lf, pv) = (ints(leaf@), path_z(path@));
    for k in 0..n
        invariant
            n == path.len(),
            lf == ints(leaf@),
            pv == path_z(path@),
            ints(node@) == node_after(lf, pv, k as nat),
            t.len() == 32 * k,
            forall|i: int|
                0 <= i < 32 * k ==> ints((#[trigger] t@[i])@) == merkle_row(
                    lf,
                    pv,
                    i / 32,
                    i % 32,
                ),
    {
        let (sib, right) = path[k];
        assert(pv[k as int] == (ints(sib@), right));
        let input: [u64; 8] = ordered(node, sib, right);
        let steps: Vec<[u64; 8]> = native_steps(input);
        for r in 0..32
            invariant
                steps.len() == 32,
                pv[k as int] == (ints(sib@), right),
                ints(input@) == ordered_z(node_after(lf, pv, k as nat), ints(sib@), right),
                forall|j: int|
                    0 <= j < 32 ==> ints((#[trigger] steps@[j])@) == perm_row(
                        ints(input@),
                        j as nat,
                    ),
                t.len() == 32 * k + r,
                forall|i: int|
                    0 <= i < 32 * k + r ==> ints((#[trigger] t@[i])@) == merkle_row(
                        lf,
                        pv,
                        i / 32,
                        i % 32,
                    ),
        {
            t.push(merkle_cells(&steps[r], &sib, right));
            assert((32 * k + r) / 32 == k && (32 * k + r) % 32 == r);
        }
        node = first_half(native_permute(input));
    }
    assert(cells(t@) =~= merkle_trace(lf, pv));
    t
}

/// What the periodic columns of a chain of blocks hold at row `r`.
pub proof fn lemma_block_env(t: Seq<Seq<int>>, pv: Seq<int>, r: int)
    requires
        0 <= r,
    ensures
        round_row(row_env(t, block_cols(), pv, r).per, r % 32),
        row_env(t, block_cols(), pv, r).per[11] == last_z(r),
        row_env(t, block_cols(), pv, r).per.len() == 12,
{
    let p = row_env(t, block_cols(), pv, r).per;
    assert forall|j: int| 0 <= j < ROUND_COLS implies #[trigger] p[j] == round_col(j, r % 32) by {
        assert(block_cols()[j].len() == 32);
    }
    assert(block_cols()[11].len() == 32);
}

/// The constraints at a row, group by group.
proof fn lemma_merkle_holds(env: Env, r: int, h: int)
    ensures
        holds(merkle_polys(env), r, h) <==> {
            &&& r != h - 1 ==> vanish(round_polys(lanes(env.cur, 0), lanes(env.nxt, 0), env.per))
            &&& red(bit_z(env.cur[12])) == 0
            &&& r == 0 ==> vanish(leaf_input_polys(env))
            &&& r != h - 1 ==> vanish(
                scaled(env.per[11], link_polys(env.cur, env.nxt, 8, 12)),
            )
            &&& r == h - 1 ==> vanish(digest_polys(env, 4))
        },
{
    let g1 = gated(
        Gate::Transition,
        round_polys(lanes(env.cur, 0), lanes(env.nxt, 0), env.per),
    );
    let x = (Gate::Always, bit_z(env.cur[12]));
    let g3 = gated(Gate::First, leaf_input_polys(env));
    let g4 = gated(
        Gate::Transition,
        scaled(env.per[11], link_polys(env.cur, env.nxt, 8, 12)),
    );
    let g5 = gated(Gate::Last, digest_polys(env, 4));
    lemma_holds_gated(
        Gate::Transition,
        round_polys(lanes(env.cur, 0), lanes(env.nxt, 0), env.per),
        r,
        h,
    );
    lemma_holds_push(g1, x, r, h);
    lemma_holds_gated(Gate::First, leaf_input_polys(env), r, h);
    lemma_holds_concat(g1.push(x), g3, r, h);
    lemma_holds_gated(
        Gate::Transition,
        scaled(env.per[11], link_polys(env.cur, env.nxt, 8, 12)),
        r,
        h,
    );
    lemma_holds_concat(g1.push(x) + g3, g4, r, h);
    lemma_holds_gated(
        Gate::Last,
        digest_polys(env, 4),
        r,
        h,
    );
    lemma_holds_concat(g1.push(x) + g3 + g4, g5, r, h);
}

/// Every sibling of a path is a digest.
pub open spec fn path_ok(path: Seq<(Seq<int>, bool)>) -> bool {
    forall|i: int| 0 <= i < path.len() ==> (#[trigger] path[i]).0.len() == 4
}

pub proof fn lemma_merkle_row(leaf: Seq<int>, path: Seq<(Seq<int>, bool)>, r: int)
    requires
        leaf.len() == 4,
        path_ok(path),
        0 <= r < 32 * path.len(),
    ensures
        ({
            let row = merkle_trace(leaf, path)[r];
            let (sib, right) = path[r / 32];
            let input = ordered_z(node_after(leaf, path, (r / 32) as nat), sib, right);
            &&& lanes(row, 0) == perm_row(input, (r % 32) as nat)
            &&& forall|i: int| 0 <= i < 8 ==> #[trigger] row[i] == perm_row(input, (r % 32) as nat)[i]
            &&& forall|i: int| 0 <= i < 4 ==> #[trigger] row[8 + i] == sib[i]
            &&& row[12] == if right {
                1int
            } else {
                0int
            }
            &&& input.len() == 8
        }),
{
    let k = r / 32;
    let (sib, right) = path[k];
    lemma_node_bound(leaf, path, k as nat);
    let input = ordered_z(node_after(leaf, path, k as nat), sib, right);
    lemma_perm_row_bound(input, (r % 32) as nat);
    let row = merkle_trace(leaf, path)[r];
    assert(row == merkle_row(leaf, path, k, r % 32));
    assert(lanes(row, 0) =~= perm_row(input, (r % 32) as nat));
}

/// A row of the trace of a path against the one after it: inside a block the rounds hold, and from
/// block to block the link does.
pub proof fn lemma_merkle_step(
    leaf: Seq<int>,
    path: Seq<(Seq<int>, bool)>,
    r: int,
    c: Seq<int>,
    n: Seq<int>,
    p: Seq<int>,
)
    requires
        leaf.len() == 4,
        path_ok(path),
        0 <= r < 32 * path.len() - 1,
        c == merkle_trace(leaf, path)[r],
        n == merkle_trace(leaf, path)[r + 1],
        round_row(p, r % 32),
    ensures
        vanish(round_polys(lanes(c, 0), lanes(n, 0), p)),
        r % 32 == 31 ==> vanish(link_polys(c, n, 8, 12)),
{
    let (k, j) = (r / 32, r % 32);
    let (sib, right) = path[k];
    let input = ordered_z(node_after(leaf, path, k as nat), sib, right);
    lemma_merkle_row(leaf, path, r);
    lemma_merkle_row(leaf, path, r + 1);
    if j < 31 {
        assert((r + 1) / 32 == k && (r + 1) % 32 == j + 1);
        lemma_rounds_vanish(input, p, j as nat);
    } else {
        assert((r + 1) / 32 == k + 1 && (r + 1) % 32 == 0);
        lemma_round_idle(lanes(c, 0), lanes(n, 0), p);
        let next = node_after(leaf, path, (k + 1) as nat);
        assert(next == take4(perm(input)));
        lemma_link_to(next, path, k + 1, leaf, c, n);
    }
}

/// The link from a row that ends in the node of level `k` to the head of the block of that level.
pub proof fn lemma_link_to(
    node: Seq<int>,
    path: Seq<(Seq<int>, bool)>,
    k: int,
    leaf: Seq<int>,
    c: Seq<int>,
    n: Seq<int>,
)
    requires
        leaf.len() == 4,
        path_ok(path),
        0 <= k < path.len(),
        node == node_after(leaf, path, k as nat),
        forall|i: int| 0 <= i < 4 ==> #[trigger] c[i] == node[i],
        n == merkle_trace(leaf, path)[32 * k],
    ensures
        vanish(link_polys(c, n, 8, 12)),
{
    lemma_red_small(0);
    let (s1, b1) = path[k];
    lemma_node_bound(leaf, path, k as nat);
    assert((32 * k) / 32 == k && (32 * k) % 32 == 0);
    lemma_merkle_row(leaf, path, 32 * k);
    lemma_perm_step(ordered_z(node, s1, b1), 0);
    assert forall|i: int|
        #![trigger c[i]]
        0 <= i < 4 implies if n[12] == 1 {
        n[i] == n[8 + i] && n[4 + i] == c[i]
    } else {
        n[i] == c[i] && n[4 + i] == n[8 + i]
    } by {
        assert(n[i] == ordered_z(node, s1, b1)[i]);
        assert(n[4 + i] == ordered_z(node, s1, b1)[4 + i]);
        assert(n[8 + i] == s1[i]);
        assert(c[i] == node[i]);
    }
    lemma_link(c, n, 8, 12);
}

proof fn lemma_merkle_row_holds(
    leaf: Seq<int>,
    path: Seq<(Seq<int>, bool)>,
    root: Seq<int>,
    r: int,
)
    requires
        leaf.len() == 4,
        root.len() == 4,
        path_ok(path),
        0 <= r < 32 * path.len(),
        forall|i: int| 0 <= i < 4 ==> cong(#[trigger] root[i], root_of(leaf, path)[i]),
    ensures
        holds(
            merkle_polys(row_env(merkle_trace(leaf, path), block_cols(), leaf + root, r)),
            r,
            32 * path.len() as int,
        ),
{
    let t = merkle_trace(leaf, path);
    let h = 32 * path.len() as int;
    let pv = leaf + root;
    let env = row_env(t, block_cols(), pv, r);
    let (k, j) = (r / 32, r % 32);
    let (sib, right) = path[k];
    let node = node_after(leaf, path, k as nat);
    let input = ordered_z(node, sib, right);
    lemma_merkle_holds(env, r, h);
    lemma_block_env(t, pv, r);
    lemma_merkle_row(leaf, path, r);
    lemma_node_bound(leaf, path, k as nat);
    assert(red(bit_z(env.cur[12])) == 0);
    if r != h - 1 {
        lemma_merkle_step(leaf, path, r, env.cur, env.nxt, env.per);
        lemma_scaled(env.per[11], link_polys(env.cur, env.nxt, 8, 12));
    } else {
        assert(k == path.len() - 1 && j == 31);
        assert(node_after(leaf, path, path.len()) == take4(perm(input)));
        assert forall|i: int|
            0 <= i < 4 implies red(#[trigger] digest_polys(env, 4)[i]) == 0 by {
            lemma_cong_diff(env.cur[i], root[i]);
            assert(env.pis[4 + i] == root[i]);
        }
    }
    if r == 0 {
        assert(node_after(leaf, path, 0) == leaf);
        lemma_perm_step(input, 0);
        assert forall|i: int| 0 <= i < 8 implies red(#[trigger] leaf_input_polys(env)[i]) == 0 by {
            assert(env.cur[i / 2] == input[i / 2]);
            assert(env.cur[4 + i / 2] == input[4 + i / 2]);
            assert(env.cur[8 + i / 2] == sib[i / 2]);
            assert(env.pis[i / 2] == leaf[i / 2]);
            lemma_select(env.cur[12], env.pis[i / 2], env.cur[8 + i / 2]);
            lemma_select(env.cur[12], env.cur[8 + i / 2], env.pis[i / 2]);
            assert(leaf_input_z(env, i) == 0);
        }
    }
}

/// The trace of a path meets the constraints exactly for the root that its leaf folds to.
pub proof fn law_merkle_complete(leaf: Seq<int>, path: Seq<(Seq<int>, bool)>, root: Seq<int>)
    requires
        leaf.len() == 4,
        root.len() == 4,
        path.len() > 0,
        path_ok(path),
    ensures
        satisfied(
            |env: Env| merkle_polys(env),
            merkle_trace(leaf, path),
            block_cols(),
            leaf + root,
        ) <==> forall|i: int|
            0 <= i < 4 ==> cong(#[trigger] root[i], root_of(leaf, path)[i]),
{
    let t = merkle_trace(leaf, path);
    let h = 32 * path.len() as int;
    let pv = leaf + root;
    let polys = |env: Env| merkle_polys(env);
    if forall|i: int| 0 <= i < 4 ==> cong(#[trigger] root[i], root_of(leaf, path)[i]) {
        assert forall|r: int|
            #![trigger row_env(t, block_cols(), pv, r)]
            0 <= r < t.len() implies holds(
            polys(row_env(t, block_cols(), pv, r)),
            r,
            t.len() as int,
        ) by {
            lemma_merkle_row_holds(leaf, path, root, r);
        }
    }
    if satisfied(polys, t, block_cols(), pv) {
        let r = h - 1;
        let env = row_env(t, block_cols(), pv, r);
        assert(holds(polys(env), r, t.len() as int));
        lemma_merkle_holds(env, r, h);
        lemma_merkle_row(leaf, path, r);
        let last = digest_polys(env, 4);
        assert forall|i: int| 0 <= i < 4 implies cong(#[trigger] root[i], root_of(leaf, path)[i]) by {
            assert(red(last[i]) == 0);
            lemma_cong_diff(env.cur[i], root[i]);
            assert(env.pis[4 + i] == root[i]);
        }
    }
}

/// Every cell of the rows of a trace is canonical.
pub open spec fn canonical_cells(t: Seq<Seq<int>>, w: int) -> bool {
    forall|r: int, c: int|
        #![trigger t[r][c]]
        0 <= r < t.len() && 0 <= c < w ==> 0 <= t[r][c] < P
}

/// The siblings and directions that a trace of `d` blocks holds at the heads of its blocks.
pub open spec fn trace_path(t: Seq<Seq<int>>, d: nat) -> Seq<(Seq<int>, bool)> {
    Seq::new(d, |i: int| (Seq::new(4, |k: int| t[32 * i][8 + k]), t[32 * i][12] == 1))
}

proof fn lemma_same(x: int, y: int)
    requires
        0 <= x < P,
        0 <= y < P,
        red(x - y) == 0,
    ensures
        x == y,
{
    lemma_cong_diff(x, y);
    lemma_red_small(x);
    lemma_red_small(y);
}

/// Inside a block the rows follow from one another.
pub proof fn lemma_steps_follow(t: Seq<Seq<int>>, env: Env, r: int, w: int)
    requires
        0 <= r < t.len() - 1,
        r % 32 < 31,
        w >= 8,
        canonical_cells(t, w),
        env.cur == t[r],
        env.nxt == t[r + 1],
        round_row(env.per, r % 32),
        vanish(round_polys(lanes(env.cur, 0), lanes(env.nxt, 0), env.per)),
    ensures
        lanes(t[r + 1], 0) == red_seq(step_z(r % 32, lanes(t[r], 0))),
{
    let (c, n) = (lanes(t[r], 0), lanes(t[r + 1], 0));
    lemma_round(c, n, env.per, r % 32);
    let z = step_z(r % 32, c);
    assert(z.len() == 8) by {
        reveal(step_z);
    }
    assert forall|i: int| 0 <= i < 8 implies #[trigger] n[i] == red_seq(z)[i] by {
        assert(0 <= t[r + 1][0 + i] < P);
        assert(red(round_polys(c, n, env.per)[i]) == 0);
        lemma_red_small(n[i]);
    }
    assert(n =~= red_seq(z));
}

proof fn lemma_merkle_block(
    t: Seq<Seq<int>>,
    leaf: Seq<int>,
    root: Seq<int>,
    d: nat,
    k: nat,
)
    requires
        t.len() == 32 * d,
        k < d,
        leaf.len() == 4,
        root.len() == 4,
        canonical_cells(t, 13),
        forall|i: int| 0 <= i < 4 ==> 0 <= #[trigger] leaf[i] < P,
        satisfied(|env: Env| merkle_polys(env), t, block_cols(), leaf + root),
    ensures
        take4(lanes(t[(32 * k + 31) as int], 0)) == node_after(leaf, trace_path(t, d), k + 1),
    decreases k,
{
    let polys = |env: Env| merkle_polys(env);
    let pv = leaf + root;
    let h = t.len() as int;
    let path = trace_path(t, d);
    let head = 32 * k as int;
    let node = node_after(leaf, path, k);
    let (sib, right) = path[k as int];
    let env = row_env(t, block_cols(), pv, head);
    assert(holds(polys(env), head, h));
    lemma_merkle_holds(env, head, h);
    crate::prime::law_bits(t[head][12]);
    assert(0 <= t[head][12] < P);
    lemma_red_small(t[head][12]);
    let b = t[head][12];
    assert(b == 0 || b == 1);
    let input = ordered_z(node, sib, right);
    // the head of the block
    if k == 0 {
        assert forall|i: int| 0 <= i < 8 implies #[trigger] lanes(t[head], 0)[i] == input[i] by {
            let m = i % 4;
            assert(red(leaf_input_polys(env)[2 * m]) == 0);
            assert(red(leaf_input_polys(env)[2 * m + 1]) == 0);
            assert((2 * m) / 2 == m && (2 * m + 1) / 2 == m);
            lemma_select(b, leaf[m], t[head][8 + m]);
            lemma_select(b, t[head][8 + m], leaf[m]);
            assert(env.pis[m] == leaf[m]);
            assert(0 <= t[head][m] < P && 0 <= t[head][4 + m] < P && 0 <= t[head][8 + m] < P);
            lemma_same(t[head][m], if right { t[head][8 + m] } else { leaf[m] });
            lemma_same(t[head][4 + m], if right { leaf[m] } else { t[head][8 + m] });
        }
    } else {
        let j = (k - 1) as nat;
        lemma_merkle_block(t, leaf, root, d, j);
        let e = row_env(t, block_cols(), pv, head - 1);
        assert(holds(polys(e), head - 1, h));
        lemma_merkle_holds(e, head - 1, h);
        lemma_block_env(t, pv, head - 1);
        assert((head - 1) % 32 == 31);
        lemma_scaled(e.per[11], link_polys(e.cur, e.nxt, 8, 12));
        assert(vanish(link_polys(e.cur, e.nxt, 8, 12)));
        assert(32 * j + 31 == head - 1);
        assert forall|i: int| 0 <= i < 8 implies #[trigger] lanes(t[head], 0)[i] == input[i] by {
            let m = i % 4;
            assert(red(link_polys(e.cur, e.nxt, 8, 12)[2 * m]) == 0);
            assert(red(link_polys(e.cur, e.nxt, 8, 12)[2 * m + 1]) == 0);
            assert((2 * m) / 2 == m && (2 * m + 1) / 2 == m);
            assert(node[m] == t[head - 1][m]) by {
                assert(take4(lanes(t[head - 1], 0))[m] == t[head - 1][0 + m]);
            }
            lemma_select(b, node[m], t[head][8 + m]);
            lemma_select(b, t[head][8 + m], node[m]);
            assert(0 <= t[head][m] < P && 0 <= t[head][4 + m] < P && 0 <= t[head][8 + m] < P);
            assert(0 <= t[head - 1][m] < P);
            lemma_same(t[head][m], if right { t[head][8 + m] } else { node[m] });
            lemma_same(t[head][4 + m], if right { node[m] } else { t[head][8 + m] });
        }
    }
    assert(node.len() == 4) by {
        lemma_node_bound(leaf, path, k);
    }
    assert(lanes(t[head], 0) =~= input);
    // the rows of the block
    assert forall|j: int|
        #![trigger t[head + j]]
        1 <= j <= 31 implies lanes(t[head + j], 0) == red_seq(
        step_z(j - 1, lanes(t[head + j - 1], 0)),
    ) by {
        let r = head + j - 1;
        let e = row_env(t, block_cols(), pv, r);
        assert(holds(polys(e), r, h));
        lemma_merkle_holds(e, r, h);
        lemma_block_env(t, pv, r);
        assert(r % 32 == j - 1);
        lemma_steps_follow(t, e, r, 13);
    }
    lemma_block(t, 0, head, 31);
}

/// Whatever trace meets the constraints, the public leaf folds to the public root along the path
/// that the trace holds.
pub proof fn law_merkle_sound(t: Seq<Seq<int>>, leaf: Seq<int>, root: Seq<int>, d: nat)
    requires
        d > 0,
        t.len() == 32 * d,
        leaf.len() == 4,
        root.len() == 4,
        canonical_cells(t, 13),
        forall|i: int| 0 <= i < 4 ==> 0 <= #[trigger] leaf[i] < P,
        satisfied(|env: Env| merkle_polys(env), t, block_cols(), leaf + root),
    ensures
        forall|i: int|
            0 <= i < 4 ==> cong(#[trigger] root[i], root_of(leaf, trace_path(t, d))[i]),
{
    let polys = |env: Env| merkle_polys(env);
    let pv = leaf + root;
    let h = t.len() as int;
    lemma_merkle_block(t, leaf, root, d, (d - 1) as nat);
    let env = row_env(t, block_cols(), pv, h - 1);
    assert(holds(polys(env), h - 1, h));
    lemma_merkle_holds(env, h - 1, h);
    assert forall|i: int| 0 <= i < 4 implies cong(
        #[trigger] root[i],
        root_of(leaf, trace_path(t, d))[i],
    ) by {
        assert(red(digest_polys(env, 4)[i]) == 0);
        lemma_cong_diff(env.cur[i], root[i]);
        assert(env.pis[4 + i] == root[i]);
        assert(take4(lanes(t[h - 1], 0))[i] == t[h - 1][0 + i]);
        assert(32 * (d - 1) + 31 == h - 1);
    }
}

} // verus!
