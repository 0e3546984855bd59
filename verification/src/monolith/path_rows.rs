//! A Merkle path somewhere in a trace: a block that hashes a leaf, and one block per level behind it.
use super::merkle_tile::{leaf_digest, leaf_state};
use crate::expr::vanish;
use crate::field::{lemma_cong_diff, lemma_red_small, red, P};
use crate::fri_merkle::{canonical_cells, path_ok};
use crate::gadgets::{lemma_select, link_polys};
use crate::merkle::{lemma_node_bound, node_after, ordered_z, take4};
use crate::poseidon2::{lanes, lemma_block, lemma_perm_row_bound, red_seq, step_z};
use vstd::prelude::*;

verus! {

/// The siblings and directions at the heads of the `d` blocks behind the one at `base`.
pub open spec fn path_at(t: Seq<Seq<int>>, base: int, d: nat) -> Seq<(Seq<int>, bool)> {
    Seq::new(
        d,
        |i: int|
            (
                Seq::new(4, |k: int| t[base + 32 * (i + 1)][8 + k]),
                t[base + 32 * (i + 1)][12] == 1,
            ),
    )
}

/// The `d + 1` blocks from row `base` on hash `leaf` and fold it: the first block starts from the
/// leaf, inside a block each row follows from the one before, and each head is linked to the block
/// before it.
pub open spec fn path_holds(t: Seq<Seq<int>>, base: int, leaf: Seq<int>, d: nat) -> bool {
    &&& 0 <= base
    &&& base + 32 * (d + 1) <= t.len()
    &&& lanes(t[base], 0) == leaf_state(leaf)
    &&& forall|j: int|
        #![trigger t[base + j]]
        1 <= j < 32 * (d + 1) && j % 32 != 0 ==> lanes(t[base + j], 0) == red_seq(
            step_z(j % 32 - 1, lanes(t[base + j - 1], 0)),
        )
    &&& forall|k: int|
        #![trigger t[base + 32 * k]]
        1 <= k <= d ==> vanish(link_polys(t[base + 32 * k - 1], t[base + 32 * k], 8, 12)) && (t[base
            + 32 * k][12] == 0 || t[base + 32 * k][12] == 1)
}

/// The last row of block `k` ends in the node of level `k`.
pub proof fn lemma_path_rows(t: Seq<Seq<int>>, base: int, leaf: Seq<int>, d: nat, k: nat)
    requires
        canonical_cells(t, 13),
        path_holds(t, base, leaf, d),
        k <= d,
    ensures
        take4(lanes(t[base + 32 * k + 31], 0)) == node_after(
            leaf_digest(leaf),
            path_at(t, base, d),
            k,
        ),
    decreases k,
{
    let head = base + 32 * k;
    let path = path_at(t, base, d);
    let dg = leaf_digest(leaf);
    let s = leaf_state(leaf);
    lemma_perm_row_bound(s, 31);
    let input = if k == 0 {
        s
    } else {
        ordered_z(node_after(dg, path, (k - 1) as nat), path[k - 1].0, path[k - 1].1)
    };
    if k > 0 {
        let j = (k - 1) as nat;
        lemma_path_rows(t, base, leaf, d, j);
        let node = node_after(dg, path, j);
        let b = t[head][12];
        let (sib, right) = path[k - 1];
        assert(base + 32 * ((k - 1) + 1) == head);
        assert(t[base + 32 * k] == t[head]);
        let link = link_polys(t[head - 1], t[head], 8, 12);
        assert(vanish(link));
        assert(base + 32 * j + 31 == head - 1);
        assert forall|i: int| 0 <= i < 8 implies #[trigger] lanes(t[head], 0)[i] == input[i] by {
            let m = i % 4;
            assert(red(link[2 * m]) == 0 && red(link[2 * m + 1]) == 0);
            assert((2 * m) / 2 == m && (2 * m + 1) / 2 == m);
            assert(node[m] == t[head - 1][m]) by {
                assert(take4(lanes(t[head - 1], 0))[m] == t[head - 1][0 + m]);
            }
            lemma_select(b, node[m], t[head][8 + m]);
            lemma_select(b, t[head][8 + m], node[m]);
            assert(0 <= t[head][m] < P && 0 <= t[head][4 + m] < P && 0 <= t[head][8 + m] < P);
            assert(0 <= t[head - 1][m] < P);
            let (x, y) = if right {
                (t[head][8 + m], node[m])
            } else {
                (node[m], t[head][8 + m])
            };
            lemma_cong_diff(t[head][m], x);
            lemma_cong_diff(t[head][4 + m], y);
            lemma_red_small(t[head][m]);
            lemma_red_small(t[head][4 + m]);
            lemma_red_small(x);
            lemma_red_small(y);
        }
        assert(path_ok(path));
        lemma_node_bound(dg, path, j);
        assert(input.len() == 8);
        assert(lanes(t[head], 0) =~= input);
    }
    assert(lanes(t[head], 0) == input);
    assert forall|j: int|
        #![trigger t[head + j]]
        1 <= j <= 31 implies lanes(t[head + j], 0) == red_seq(
        step_z(j - 1, lanes(t[head + j - 1], 0)),
    ) by {
        let i = 32 * k + j;
        assert(i % 32 == j);
        assert(t[base + i] == t[head + j] && t[base + i - 1] == t[head + j - 1]);
    }
    lemma_block(t, 0, head, 31);
}

} // verus!
