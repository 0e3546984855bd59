//! Laws on the rows of a query: which cells each of its parts fills, and with what.
use super::cells::{
    acc_cells, acc_z, bare_chain_cells, bit_cells, chain_cells, fold_cells, head_cells, high_run, idle_cells,
    point_z, running, split_cells, terms_cells, FoldRound, Query,
};
use super::fused_trace::TileOpenings;
use super::segment::{
    blocks_z, commit_leaf, commit_patches, fold_patches, group_cells, head_patches, held_cells, laid,
    laid_all, leaf_patches, opening_patches, path_patches, quot_leaf, random_leaf, random_patches,
    rem_patches, root_cells, segment_patches, trace_leaf, Patch, SegmentLayout, M_INPUT_LEAF,
};
use crate::aggregate::window::HidingWitness;
use crate::bits::lemma_shr;
use crate::field::{finv_z, red, GENERATOR};
use crate::gadgets::deep_factor;
use crate::merkle::{node_after, path_z};
use crate::mmcs::{overwritten, row_hash, row_state};
use crate::poseidon2::{perm_row, BLOCK};
use vstd::arithmetic::power2::pow2;
use vstd::prelude::*;

verus! {

/// The cells of a number are its bits, the lowest first.
pub proof fn law_bit_cells(v: int, n: int, k: int)
    requires
        v >= 0,
        0 <= k < n,
    ensures
        bit_cells(v, n).len() == n,
        bit_cells(v, n)[k] == (v / (pow2(k as nat) as int)) % 2,
{
    lemma_shr(v, k as nat);
}

/// The running products over the bits of an index: a bit that is set multiplies by its factor, another
/// one changes nothing, and the evaluation point is the generator times the last product.
pub proof fn law_product_cells(v: int, n: int, k: nat)
    requires
        v >= 0,
        k < n,
    ensures
        acc_z(v, n, 0) == 1,
        (v / (pow2(k) as int)) % 2 == 1 ==> acc_z(v, n, k + 1) == red(
            acc_z(v, n, k) * deep_factor(n, k as int),
        ),
        (v / (pow2(k) as int)) % 2 == 0 ==> acc_z(v, n, k + 1) == red(acc_z(v, n, k)),
        acc_cells(v, n).len() == n,
        acc_cells(v, n)[k as int] == acc_z(v, n, k + 1),
        point_z(v, n) == red((GENERATOR as int) * acc_z(v, n, n as nat)),
{
    lemma_shr(v, k);
}

/// The head of a query: the bits of its index, the products over them, the challenge, and its terms at
/// the evaluation point of the index.
pub proof fn law_head_cells(q: Query, n: int)
    requires
        n >= 0,
    ensures
        ({
            let h = head_cells(q, n);
            let x = point_z(q.index as int, n);
            &&& h.subrange(0, n) == bit_cells(q.index as int, n)
            &&& h.subrange(n, 2 * n) == acc_cells(q.index as int, n)
            &&& h[2 * n] == q.alpha@.0
            &&& h[2 * n + 1] == q.alpha@.1
            &&& h.skip(2 * n + 2) == terms_cells(q.terms@, x, q.alpha@, q.terms@.len())
        }),
{
    let h = head_cells(q, n);
    assert(h.subrange(0, n) =~= bit_cells(q.index as int, n));
    assert(h.subrange(n, 2 * n) =~= acc_cells(q.index as int, n));
    assert(h.skip(2 * n + 2) =~= terms_cells(
        q.terms@,
        point_z(q.index as int, n),
        q.alpha@,
        q.terms@.len(),
    ));
}

/// An index element split: the element, its bits, and the products over its high bits.
pub proof fn law_split_cells(felt: int, k: int, j: nat)
    requires
        0 <= k < 64,
        j < 31,
    ensures
        split_cells(felt).len() == 96,
        split_cells(felt)[0] == felt,
        split_cells(felt)[1 + k] == (red(felt) / (pow2(k as nat) as int)) % 2,
        split_cells(felt)[(65 + j) as int] == high_run(red(felt), j + 1),
        high_run(red(felt), 0) == (red(felt) / (pow2(32) as int)) % 2,
        high_run(red(felt), j + 1) == high_run(red(felt), j) * ((red(felt) / (pow2(
            (33 + j) as nat,
        ) as int)) % 2),
{
    let v = red(felt);
    assert(v >= 0);
    lemma_shr(v, k as nat);
    lemma_shr(v, 32);
    lemma_shr(v, (33 + j) as nat);
}

/// A row of a chain: the running evaluation, the sibling, the challenge, the bit, the point and the
/// inverse of its double; behind the rounds it shows the running evaluation alone, or one that folds to
/// itself.
pub proof fn law_chain_cells(ro: (int, int), rounds: Seq<FoldRound>, r: int)
    requires
        r >= 0,
    ensures
        ({
            let e = running(ro, rounds, r as nat);
            &&& r < rounds.len() ==> {
                let rd = rounds[r];
                let bit: int = if rd.bit {
                    1
                } else {
                    0
                };
                let cells = seq![
                    e.0,
                    e.1,
                    rd.sib@.0,
                    rd.sib@.1,
                    rd.beta@.0,
                    rd.beta@.1,
                    bit,
                    rd.s as int,
                    finv_z(2 * rd.s),
                ];
                bare_chain_cells(ro, rounds, r) == cells && chain_cells(ro, rounds, r) == cells
            }
            &&& r >= rounds.len() ==> bare_chain_cells(ro, rounds, r) == seq![
                e.0,
                e.1,
                0int,
                0,
                0,
                0,
                0,
                0,
                0,
            ]
            &&& r >= rounds.len() ==> chain_cells(ro, rounds, r) == idle_cells(e)
        }),
{
}

/// The fold rows of a query: one for every round, and the running evaluation behind the last.
pub proof fn law_fold_patches(l: SegmentLayout, o: TileOpenings, r: int)
    requires
        0 <= r <= l.rounds,
    ensures
        ({
            let q = o.query;
            let e = running(q.ro@, q.rounds@, r as nat);
            let p = fold_patches(l, o);
            &&& p.len() == l.rounds + 1
            &&& p[r].row == r
            &&& p[r].col == 0
            &&& r < q.rounds.len() ==> p[r].vals == fold_cells(e, q.rounds@[r])
            &&& r >= q.rounds.len() ==> p[r].vals == seq![e.0, e.1]
        }),
{
}

/// The head of a query stands in its first row, behind the fold, and the split of its index element at
/// its own column.
pub proof fn law_head_patches(l: SegmentLayout, o: TileOpenings, felt: int)
    ensures
        head_patches(l, o, felt).len() == 2,
        head_patches(l, o, felt)[0] == (Patch { row: 0, col: 9, vals: head_cells(o.query, l.lg as int) }),
        head_patches(l, o, felt)[1] == (Patch { row: 0, col: l.sb_x as int, vals: split_cells(felt) }),
{
}

/// The blocks of a leaf: block by block the permutation of the state with the next four elements of the
/// leaf written over it, row by row.
pub proof fn law_leaf_patches(start: int, pre: Seq<int>, b: nat, j: int)
    requires
        0 <= j < BLOCK,
        4 * b < pre.len(),
    ensures
        leaf_patches(start, pre).len() == BLOCK * ((pre.len() + 3) / 4),
        ({
            let p = leaf_patches(start, pre)[BLOCK * b + j];
            &&& p.row == (start + b) * BLOCK + j
            &&& p.col == 0
            &&& p.vals == perm_row(overwritten(row_state(pre, b), pre, b as int), j as nat)
        }),
{
    let k = BLOCK * b + j;
    vstd::arithmetic::div_mod::lemma_fundamental_div_mod_converse(k, BLOCK as int, b as int, j);
    assert(start * BLOCK + k == (start + b) * BLOCK + j) by (nonlinear_arith)
        requires
            k == BLOCK * b + j,
    ;
    assert(blocks_z(pre.len() as int) > b);
    assert(k < BLOCK * blocks_z(pre.len() as int)) by (nonlinear_arith)
        requires
            k == BLOCK * b + j,
            j < BLOCK,
            blocks_z(pre.len() as int) >= b + 1,
            BLOCK > 0,
    ;
}

/// The blocks of a path: level by level the permutation of the node and the sibling, in the order of the
/// bit, and on every row of the block the sibling and the bit.
pub proof fn law_path_patches(
    l: SegmentLayout,
    start: int,
    leaf: Seq<int>,
    path: Seq<(Seq<int>, bool)>,
    v: nat,
    j: int,
)
    requires
        v < path.len(),
        0 <= j < BLOCK,
    ensures
        path_patches(l, start, leaf, path).len() == 3 * (BLOCK * path.len()),
        ({
            let at = 3 * (BLOCK * v + j);
            let p = path_patches(l, start, leaf, path);
            let node = node_after(leaf, path, v);
            let (sib, right) = path[v as int];
            let row = (start + v) * BLOCK + j;
            &&& p[at].row == row && p[at + 1].row == row && p[at + 2].row == row
            &&& p[at].col == 0
            &&& !right ==> p[at].vals == perm_row(node + sib, j as nat)
            &&& right ==> p[at].vals == perm_row(sib + node, j as nat)
            &&& p[at + 1].col == l.m_sib
            &&& p[at + 1].vals == sib
            &&& p[at + 2].col == l.m_bit
            &&& !right ==> p[at + 2].vals == seq![0int]
            &&& right ==> p[at + 2].vals == seq![1int]
        }),
{
    let r = BLOCK * v + j;
    vstd::arithmetic::div_mod::lemma_fundamental_div_mod_converse(r, BLOCK as int, v as int, j);
    assert(start * BLOCK + r == (start + v) * BLOCK + j) by (nonlinear_arith)
        requires
            r == BLOCK * v + j,
    ;
    assert(r < BLOCK * path.len()) by (nonlinear_arith)
        requires
            r == BLOCK * v + j,
            j < BLOCK,
            v + 1 <= path.len(),
            BLOCK > 0,
    ;
    assert((3 * r) / 3 == r && (3 * r + 1) / 3 == r && (3 * r + 2) / 3 == r);
    assert((3 * r) % 3 == 0 && (3 * r + 1) % 3 == 1 && (3 * r + 2) % 3 == 2);
}

/// The blocks of an opening: those of its leaf, and those of the path from the hash of the leaf on.
pub proof fn law_opening_blocks(
    l: SegmentLayout,
    start: int,
    blocks: int,
    pre: Seq<int>,
    path: Seq<(Seq<int>, bool)>,
)
    ensures
        opening_patches(l, start, blocks, pre, path) == leaf_patches(start, pre) + path_patches(
            l,
            start + blocks,
            row_hash(pre),
            path,
        ),
{
}

/// The blocks of the fold groups, one group behind the other, each at its own block.
pub proof fn law_group_blocks(l: SegmentLayout, o: TileOpenings, h: Option<&HidingWitness>, n: nat)
    ensures
        commit_patches(l, o, h, 0).len() == 0,
        commit_patches(l, o, h, n + 1) == commit_patches(l, o, h, n) + opening_patches(
            l,
            l.cm_leaf@[n as int] as int,
            l.cm_leaf_blocks as int,
            commit_leaf(o, h, n as int),
            path_z(o.commits@[n as int].path@),
        ),
{
}

/// The parts of a query: its folds, its head, its index, the random row where the commitments hide, the
/// trace row, the quotient row with all its chunks, and every fold group.
pub proof fn law_segment_parts(l: SegmentLayout, o: TileOpenings, felt: int, h: Option<&HidingWitness>)
    ensures
        segment_patches(l, o, felt, h) == fold_patches(l, o) + head_patches(l, o, felt) + rem_patches(
            l,
            felt,
        ) + random_patches(l, o, h) + opening_patches(
            l,
            l.m_input_leaf as int,
            l.leaf_blocks as int,
            trace_leaf(l, o, h),
            path_z(o.path@),
        ) + opening_patches(
            l,
            l.m_quot_leaf as int,
            l.quot_leaf_blocks as int,
            quot_leaf(l, o, h, l.nqc as nat),
            path_z(o.quot_path@),
        ) + commit_patches(l, o, h, o.commits@.len()),
        h is None ==> random_patches(l, o, h).len() == 0,
        h is Some ==> random_patches(l, o, h) == opening_patches(
            l,
            M_INPUT_LEAF as int,
            l.random_leaf_blocks as int,
            random_leaf(l, o, *h->0),
            path_z(h->0.random_path@),
        ),
{
}

/// What every row of a query holds: the trace leaf, the random leaf where the commitments hide, the
/// quotient leaf with all its chunks, the fold groups, and the roots where the layout has them.
pub proof fn law_segment_held(l: SegmentLayout, o: TileOpenings, h: Option<&HidingWitness>)
    ensures
        ({
            let held = held_cells(l, o, h);
            let s: int = if h is Some {
                1
            } else {
                0
            };
            &&& held[0] == (l.ov_c as int, trace_leaf(l, o, h))
            &&& h is Some ==> held[1] == (l.ov_random as int, random_leaf(l, o, *h->0))
            &&& held[1 + s] == (l.qc as int, quot_leaf(l, o, h, l.nqc as nat))
            &&& held[2 + s] == (l.cg as int, group_cells(o))
            &&& l.full_cap ==> held.len() == 4 + s
            &&& l.full_cap ==> held[3 + s] == (l.cap_c as int, root_cells(l, o, h))
            &&& !l.full_cap ==> held.len() == 3 + s
        }),
{
}

/// Cells that are put into a row stand there, and everything else stays.
pub proof fn law_laid(t: Seq<Seq<int>>, ps: Seq<Patch>, p: Patch, r: int, c: int)
    requires
        0 <= p.row < t.len(),
        laid_all(t, ps).len() == t.len(),
        0 <= r < t.len(),
        0 <= c < laid_all(t, ps)[r].len(),
    ensures
        laid_all(t, Seq::empty()) == t,
        ({
            let before = laid_all(t, ps);
            let after = laid_all(t, ps.push(p));
            &&& after.len() == t.len()
            &&& r == p.row && p.col <= c < p.col + p.vals.len() ==> after[r][c] == p.vals[c - p.col]
            &&& r != p.row || c < p.col || c >= p.col + p.vals.len() ==> after[r][c] == before[r][c]
        }),
{
    assert(ps.push(p).drop_last() =~= ps);
    assert(laid_all(t, ps.push(p)) == laid(laid_all(t, ps), p));
}

} // verus!
