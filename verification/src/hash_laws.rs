//! The hashes, paths and trees, each by what it takes in, over all lengths.
use crate::field::{ints, red};
use crate::fri_merkle::{ancestor, auth_path, level_len, tree_node};
use crate::merkle::{node_after, root_of, take4, Digest};
use crate::mmcs::{flattened, index_path, joined, overwritten, row_hash, row_state};
use crate::monolith::leaf_hash::{hash_digest, hash_input, lemma_hash_input};
use crate::monolith::merkle_tile::leaf_digest;
use crate::monolith::sponge::{felt_blocks, ft_inputs};
use crate::poseidon2::{lemma_perm_row_bound, perm};
use crate::spend_common::{empty_z, pairs, sparse_node, sparse_path};
use crate::transcript::{sponge_input, sponge_output};
use crate::verifier_air::laid_out;
use vstd::arithmetic::power2::pow2;
use vstd::prelude::*;

verus! {

/// The front of a permuted state.
pub proof fn law_half(s: Seq<int>)
    requires
        s.len() == 8,
    ensures
        take4(perm(s)) == perm(s).subrange(0, 4),
        take4(perm(s)).len() == 4,
        perm(s).len() == 8,
{
    lemma_perm_row_bound(s, 31);
    assert(take4(perm(s)) =~= perm(s).subrange(0, 4));
}

proof fn lemma_node_prefix(leaf: Seq<int>, path: Seq<(Seq<int>, bool)>, more: (Seq<int>, bool), k: nat)
    requires
        k <= path.len(),
    ensures
        node_after(leaf, path.push(more), k) == node_after(leaf, path, k),
    decreases k,
{
    if k > 0 {
        lemma_node_prefix(leaf, path, more, (k - 1) as nat);
        assert(path.push(more)[k - 1] == path[k - 1]);
    }
}

/// A path without steps leads to the leaf, and a further step compresses what the path leads to with the
/// step's sibling: the sibling in front where the node is the right child, behind it otherwise.
pub proof fn law_path_step(leaf: Seq<int>, path: Seq<(Seq<int>, bool)>, sib: Seq<int>, right: bool)
    requires
        leaf.len() == 4,
        sib.len() == 4,
        forall|i: int| 0 <= i < path.len() ==> (#[trigger] path[i]).0.len() == 4,
    ensures
        root_of(leaf, seq![]) == leaf,
        right ==> root_of(leaf, path.push((sib, right))) == perm(
            sib + root_of(leaf, path),
        ).subrange(0, 4),
        !right ==> root_of(leaf, path.push((sib, right))) == perm(
            root_of(leaf, path) + sib,
        ).subrange(0, 4),
{
    let longer = path.push((sib, right));
    lemma_node_prefix(leaf, path, (sib, right), path.len());
    crate::merkle::lemma_node_bound(leaf, path, path.len());
    assert(longer[path.len() as int] == (sib, right));
    law_half(if right {
        sib + root_of(leaf, path)
    } else {
        root_of(leaf, path) + sib
    });
}

/// Two leaves that one path leads to one root are the same leaf, or two different states on the way have
/// permutations with the same first half.
pub proof fn law_path_binding(a: Seq<int>, b: Seq<int>, path: Seq<(Seq<int>, bool)>, n: nat) -> (at:
    nat)
    requires
        a.len() == 4,
        b.len() == 4,
        n <= path.len(),
        forall|i: int| 0 <= i < path.len() ==> (#[trigger] path[i]).0.len() == 4,
        a != b,
        node_after(a, path, n) == node_after(b, path, n),
    ensures
        at < n,
        ({
            let (sib, right) = path[at as int];
            let (x, y) = (node_after(a, path, at), node_after(b, path, at));
            &&& x != y
            &&& right ==> perm(sib + x).subrange(0, 4) == perm(sib + y).subrange(0, 4)
            &&& !right ==> perm(x + sib).subrange(0, 4) == perm(y + sib).subrange(0, 4)
        }),
    decreases n,
{
    let m = (n - 1) as nat;
    let (sib, right) = path[m as int];
    let (x, y) = (node_after(a, path, m), node_after(b, path, m));
    crate::merkle::lemma_node_bound(a, path, m);
    crate::merkle::lemma_node_bound(b, path, m);
    assert(path[m as int].0.len() == 4);
    if x == y {
        law_path_binding(a, b, path, m)
    } else {
        if right {
            law_half(sib + x);
            law_half(sib + y);
        } else {
            law_half(x + sib);
            law_half(y + sib);
        }
        m
    }
}

/// The hash of a row starts from a zero state; every block of four elements overwrites the front of the
/// state, as far as the row goes, and the state is permuted; the hash is the first half of the last one.
pub proof fn law_row_hash_step(row: Seq<int>, n: nat, s: Seq<int>)
    requires
        s.len() == 8,
        forall|i: int|
            0 <= i < 8 ==> #[trigger] s[i] == (if i < 4 && 4 * n + i < row.len() {
                row[4 * n + i]
            } else {
                row_state(row, n)[i]
            }),
    ensures
        row_state(row, 0) == seq![0int, 0, 0, 0, 0, 0, 0, 0],
        row_state(row, n + 1) == perm(s),
        4 * n < row.len() <= 4 * n + 4 ==> row_hash(row) == perm(s).subrange(0, 4),
        row.len() == 0 ==> row_hash(row) == seq![0int, 0, 0, 0],
{
    assert(overwritten(row_state(row, n), row, n as int) =~= s);
    law_half(s);
    if row.len() == 0 {
        assert(row_hash(row) =~= seq![0int, 0, 0, 0]);
    }
}

/// Rows that are joined stand one behind the other, in order.
pub proof fn law_joined(rows: Seq<Seq<int>>, n: nat)
    requires
        n < rows.len(),
    ensures
        joined(rows, 0) == Seq::<int>::empty(),
        joined(rows, n + 1) == joined(rows, n) + rows[n as int],
{
}

/// The path of an index has at every level the sibling there, and the direction that the index's bit
/// gives.
pub proof fn law_index_path(path: Seq<Digest>, index: int, l: int)
    requires
        index >= 0,
        0 <= l < path.len(),
    ensures
        index_path(path, index).len() == path.len(),
        index_path(path, index)[l].0 == ints(path[l]@),
        index_path(path, index)[l].1 <==> (index / (pow2(l as nat) as int)) % 2 == 1,
{
    crate::bits::lemma_shr(index, l as nat);
}

/// Extension elements are laid out coordinate by coordinate.
pub proof fn law_flattened(row: Seq<(int, int)>, i: int)
    requires
        0 <= i < row.len(),
    ensures
        flattened(row).len() == 2 * row.len(),
        flattened(row)[2 * i] == row[i].0,
        flattened(row)[2 * i + 1] == row[i].1,
{
}

/// A block of a leaf hash takes in its own four elements and the capacity that the block before it left,
/// zeros for the first; the digest is the first half behind the last block.
pub proof fn law_leaf_block(g: Seq<int>, b: nat)
    ensures
        forall|i: int| 0 <= i < 4 ==> #[trigger] hash_input(g, b)[i] == g[4 * b + i],
        b == 0 ==> hash_input(g, b).subrange(4, 8) == seq![0int, 0, 0, 0],
        b > 0 ==> hash_input(g, b).subrange(4, 8) == perm(hash_input(g, (b - 1) as nat)).subrange(4, 8),
        hash_digest(g, b + 1) == perm(hash_input(g, b)).subrange(0, 4),
{
    lemma_hash_input(g, b);
    law_half(hash_input(g, b));
    if b > 0 {
        lemma_hash_input(g, (b - 1) as nat);
        law_half(hash_input(g, (b - 1) as nat));
        assert(hash_input(g, b).subrange(4, 8) =~= perm(hash_input(g, (b - 1) as nat)).subrange(4, 8));
    } else {
        assert(hash_input(g, b).subrange(4, 8) =~= seq![0int, 0, 0, 0]);
    }
}

/// A leaf of at most eight elements is hashed in one permutation, zeros behind it.
pub proof fn law_leaf_digest(v: Seq<int>, s: Seq<int>)
    requires
        v.len() <= 8,
        s.len() == 8,
        forall|i: int| 0 <= i < v.len() ==> #[trigger] s[i] == v[i],
        forall|i: int| v.len() <= i < 8 ==> #[trigger] s[i] == 0,
    ensures
        leaf_digest(v) == perm(s).subrange(0, 4),
{
    assert(crate::monolith::merkle_tile::leaf_state(v) =~= s);
    law_half(s);
}

proof fn lemma_sponge_len(blocks: Seq<Seq<int>>, j: nat)
    requires
        j < blocks.len(),
        forall|i: int| 0 <= i < blocks.len() ==> (#[trigger] blocks[i]).len() == 4,
    ensures
        sponge_input(blocks, j).len() == 8,
{
    assert(blocks[j as int].len() == 4);
}

/// A block of a sponge stands in the rate lanes of its permutation's input; the capacity lanes are those
/// that the block before it left, zeros for the first, with the four absorbed elements counted in the
/// first of them. The sponge gives the rate lanes behind the last block.
pub proof fn law_sponge_block(blocks: Seq<Seq<int>>, j: nat)
    requires
        j < blocks.len(),
        forall|i: int| 0 <= i < blocks.len() ==> (#[trigger] blocks[i]).len() == 4,
    ensures
        ({
            let s = sponge_input(blocks, j);
            let before = perm(sponge_input(blocks, (j - 1) as nat));
            &&& s.len() == 8
            &&& s.subrange(0, 4) == blocks[j as int]
            &&& j == 0 ==> s.subrange(4, 8) == seq![4int, 0, 0, 0]
            &&& j > 0 ==> s.subrange(4, 8) == seq![
                red(before[4] + 4),
                before[5],
                before[6],
                before[7],
            ]
            &&& j + 1 == blocks.len() ==> sponge_output(blocks) == perm(s).subrange(0, 4)
        }),
{
    let s = sponge_input(blocks, j);
    lemma_sponge_len(blocks, j);
    law_half(s);
    assert(blocks[j as int].len() == 4);
    assert(s.subrange(0, 4) =~= blocks[j as int]);
    if j == 0 {
        crate::field::lemma_red_small(4);
        assert(s.subrange(4, 8) =~= seq![4int, 0, 0, 0]);
    } else {
        lemma_sponge_len(blocks, (j - 1) as nat);
        let before = perm(sponge_input(blocks, (j - 1) as nat));
        law_half(sponge_input(blocks, (j - 1) as nat));
        let cap = before.subrange(4, 8);
        assert(cap[0] == before[4] && cap[1] == before[5] && cap[2] == before[6] && cap[3]
            == before[7]);
        assert(s.subrange(4, 8) =~= seq![red(before[4] + 4), before[5], before[6], before[7]]);
    }
}

/// The lowest level of a tree are its leaves, and every node above compresses the two below it.
pub proof fn law_tree_node(leaves: Seq<Digest>, l: nat, i: int)
    ensures
        tree_node(leaves, 0, i) == ints(leaves[i]@),
        tree_node(leaves, l + 1, i) == perm(
            tree_node(leaves, l, 2 * i) + tree_node(leaves, l, 2 * i + 1),
        ).subrange(0, 4),
        tree_node(leaves, l, i).len() == 4,
    decreases l,
{
    lemma_node_len(leaves, l, i);
    lemma_node_len(leaves, l, 2 * i);
    lemma_node_len(leaves, l, 2 * i + 1);
    law_half(tree_node(leaves, l, 2 * i) + tree_node(leaves, l, 2 * i + 1));
}

proof fn lemma_node_len(leaves: Seq<Digest>, l: nat, i: int)
    ensures
        tree_node(leaves, l, i).len() == 4,
{
}

/// A level has half as many nodes as the one below it, and the node above a position is at half of it.
pub proof fn law_levels(n: int, i: int, k: nat)
    requires
        n >= 0,
        i >= 0,
    ensures
        level_len(n, k) == n / (pow2(k) as int),
        ancestor(i, k) == i / (pow2(k) as int),
    decreases k,
{
    vstd::arithmetic::power2::lemma2_to64();
    if k == 0 {
        vstd::arithmetic::div_mod::lemma_div_basics(n);
        vstd::arithmetic::div_mod::lemma_div_basics(i);
    } else {
        let j = (k - 1) as nat;
        law_levels(n, i, j);
        vstd::arithmetic::power2::lemma_pow2_unfold(k);
        vstd::arithmetic::power2::lemma_pow2_pos(j);
        vstd::arithmetic::div_mod::lemma_div_denominator(n, pow2(j) as int, 2);
        vstd::arithmetic::div_mod::lemma_div_denominator(i, pow2(j) as int, 2);
        assert(pow2(j) as int * 2 == pow2(k) as int);
    }
}

/// The path of a position has at every level the node beside the one above the position, and the
/// direction that the position's bit gives.
pub proof fn law_auth_path(levels: Seq<Vec<Digest>>, i: int, k: int)
    requires
        i >= 0,
        0 <= k < levels.len() - 1,
    ensures
        ({
            let up = i / (pow2(k as nat) as int);
            let beside = if up % 2 == 1 {
                up - 1
            } else {
                up + 1
            };
            &&& auth_path(levels, i).len() == levels.len() - 1
            &&& auth_path(levels, i)[k].0 == ints(levels[k]@[beside]@)
            &&& auth_path(levels, i)[k].1 <==> up % 2 == 1
        }),
{
    law_levels(0, i, k as nat);
}

/// The blocks of a transcript are its own as far as they go; behind them every block starts from what
/// the one before it left, and there are as many as a power of two.
pub proof fn law_padded_blocks(inputs: Seq<Seq<int>>, b: nat)
    requires
        inputs.len() > 0,
        b < ft_inputs(inputs).len(),
    ensures
        ft_inputs(inputs).len() == crate::cols::np2(inputs.len() as int),
        b < inputs.len() ==> ft_inputs(inputs)[b as int] == inputs[b as int],
        b >= inputs.len() ==> ft_inputs(inputs)[b as int] == perm(ft_inputs(inputs)[b - 1]),
{
    crate::cols::lemma_np2(inputs.len() as int);
}

/// Elements are taken four at a time, in order.
pub proof fn law_felt_blocks(felts: Seq<int>, n: int, b: int, l: int)
    requires
        0 <= b < n,
        0 <= l < 4,
        felts.len() == 4 * n,
    ensures
        felt_blocks(felts, n).len() == n,
        felt_blocks(felts, n)[b].len() == 4,
        felt_blocks(felts, n)[b][l] == felts[4 * b + l],
{
}

/// Blocks are laid out one behind the other.
pub proof fn law_laid_out(blocks: Seq<Seq<int>>, next: Seq<int>)
    ensures
        laid_out(Seq::<Seq<int>>::empty()) == Seq::<int>::empty(),
        laid_out(blocks.push(next)) == laid_out(blocks) + next,
{
    assert(blocks.push(next).drop_last() =~= blocks);
}

/// An empty subtree is rooted at zero, and one level more compresses two of them.
pub proof fn law_empty_root(d: nat)
    ensures
        empty_z(0) == seq![0int, 0, 0, 0],
        empty_z(d + 1) == perm(empty_z(d) + empty_z(d)).subrange(0, 4),
        empty_z(d).len() == 4,
{
    lemma_empty_len(d);
    law_half(empty_z(d) + empty_z(d));
}

proof fn lemma_empty_len(d: nat)
    ensures
        empty_z(d).len() == 4,
{
}

/// The path of a note has 32 levels. Its directions are the bits of the note's position; below the depth
/// of the subtree that holds the notes its siblings are nodes of that subtree, and above it they are
/// roots of empty ones.
pub proof fn law_note_path(leaves: Seq<Digest>, k: nat, p: int, d: int)
    requires
        leaves.len() == pow2(k),
        k <= 32,
        0 <= p < leaves.len(),
        0 <= d < 32,
    ensures
        ({
            let path = sparse_path(leaves, k, p);
            let up = p / (pow2(d as nat) as int);
            let beside = if up % 2 == 1 {
                up - 1
            } else {
                up + 1
            };
            &&& path.len() == 32
            &&& path[d].1 <==> up % 2 == 1
            &&& d < k ==> path[d].0 == tree_node(leaves, d as nat, beside)
            &&& d >= k ==> path[d].0 == empty_z(d as nat)
        }),
{
    law_levels(0, p, d as nat);
    if d >= k {
        vstd::arithmetic::power2::lemma_pow2_pos(d as nat);
        if d > k {
            vstd::arithmetic::power2::lemma_pow2_strictly_increases(k, d as nat);
        }
        vstd::arithmetic::div_mod::lemma_basic_div(p, pow2(d as nat) as int);
    }
}

/// The root of the notes is that of their subtree, compressed level by level with the root of an empty
/// one behind it.
pub proof fn law_note_root(leaves: Seq<Digest>, k: nat, d: nat)
    requires
        d >= k,
    ensures
        sparse_node(leaves, k, k) == tree_node(leaves, k, 0),
        sparse_node(leaves, k, d + 1) == perm(sparse_node(leaves, k, d) + empty_z(d)).subrange(0, 4),
        sparse_node(leaves, k, d).len() == 4,
{
    lemma_node_len(leaves, k, 0);
    lemma_empty_len(d);
    assert(sparse_node(leaves, k, d).len() == 4);
    law_half(sparse_node(leaves, k, d) + empty_z(d));
}

/// A path of siblings and bits has, level by level, the sibling and the bit of that level.
pub proof fn law_paired_path(sib: Seq<Digest>, bits: Seq<bool>, d: int)
    requires
        0 <= d < sib.len(),
    ensures
        pairs(sib, bits).len() == sib.len(),
        pairs(sib, bits)[d].0 == ints(sib[d]@),
        pairs(sib, bits)[d].1 == bits[d],
{
}

} // verus!
