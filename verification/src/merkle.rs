//! Two-to-one compression and Merkle paths.
use crate::field::{ints, P};
use crate::poseidon2::{lemma_perm_row_bound, native_permute, perm};
use vstd::prelude::*;

verus! {

/// The number of field elements of a digest.
pub const DIGEST: usize = 4;

/// A digest.
pub type Digest = [u64; 4];

pub open spec fn take4(s: Seq<int>) -> Seq<int> {
    Seq::new(4, |i: int| s[i])
}

/// The compression of two digests: the first half of their permuted concatenation.
pub open spec fn merge_z(l: Seq<int>, r: Seq<int>) -> Seq<int> {
    take4(perm(l + r))
}

/// Two digests as the input of a permutation.
pub fn join(l: Digest, r: Digest) -> (s: [u64; 8])
    ensures
        ints(s@) == ints(l@) + ints(r@),
{
    let s: [u64; 8] = [l[0], l[1], l[2], l[3], r[0], r[1], r[2], r[3]];
    assert(ints(s@) =~= ints(l@) + ints(r@));
    s
}

/// The first half of a permutation's output.
pub fn first_half(s: [u64; 8]) -> (d: Digest)
    ensures
        ints(d@) == take4(ints(s@)),
{
    let d: Digest = [s[0], s[1], s[2], s[3]];
    assert(ints(d@) =~= take4(ints(s@)));
    d
}

/// The compression of two digests.
pub fn merge(l: Digest, r: Digest) -> (d: Digest)
    ensures
        ints(d@) == merge_z(ints(l@), ints(r@)),
{
    first_half(native_permute(join(l, r)))
}

/// A node and its sibling, in the order that the direction gives: the node is the right child
/// where it is set.
pub open spec fn ordered_z(node: Seq<int>, sib: Seq<int>, right: bool) -> Seq<int> {
    if right {
        sib + node
    } else {
        node + sib
    }
}

pub fn ordered(node: Digest, sib: Digest, right: bool) -> (s: [u64; 8])
    ensures
        ints(s@) == ordered_z(ints(node@), ints(sib@), right),
{
    if right {
        join(sib, node)
    } else {
        join(node, sib)
    }
}

/// The siblings and directions of a path, as integers.
pub open spec fn path_z(path: Seq<(Digest, bool)>) -> Seq<(Seq<int>, bool)> {
    Seq::new(path.len(), |i: int| (ints(path[i].0@), path[i].1))
}

/// The node that `leaf` folds to along the first `k` steps of a path.
pub open spec fn node_after(leaf: Seq<int>, path: Seq<(Seq<int>, bool)>, k: nat) -> Seq<int>
    decreases k,
{
    if k == 0 {
        leaf
    } else {
        let (sib, right) = path[k - 1];
        take4(perm(ordered_z(node_after(leaf, path, (k - 1) as nat), sib, right)))
    }
}

/// The root that `leaf` folds to along a path.
pub open spec fn root_of(leaf: Seq<int>, path: Seq<(Seq<int>, bool)>) -> Seq<int> {
    node_after(leaf, path, path.len())
}

/// The root that `leaf` folds to along a path.
pub fn fold_path(leaf: Digest, path: &[(Digest, bool)]) -> (r: Digest)
    ensures
        ints(r@) == root_of(ints(leaf@), path_z(path@)),
{
    let mut node: Digest = leaf;
    let n: usize = path.len();
    for k in 0..n
        invariant
            n == path.len(),
            ints(node@) == node_after(ints(leaf@), path_z(path@), k as nat),
    {
        let (sib, right) = path[k];
        assert(path_z(path@)[k as int] == (ints(sib@), right));
        node = first_half(native_permute(ordered(node, sib, right)));
    }
    node
}

/// Every node of a path past its leaf is canonical.
pub proof fn lemma_node_bound(leaf: Seq<int>, path: Seq<(Seq<int>, bool)>, k: nat)
    requires
        leaf.len() == 4,
        k <= path.len(),
        forall|i: int| 0 <= i < path.len() ==> (#[trigger] path[i]).0.len() == 4,
    ensures
        node_after(leaf, path, k).len() == 4,
        k > 0 ==> forall|i: int| 0 <= i < 4 ==> 0 <= #[trigger] node_after(leaf, path, k)[i] < P,
    decreases k,
{
    if k > 0 {
        lemma_node_bound(leaf, path, (k - 1) as nat);
        let (sib, right) = path[k - 1];
        let input = ordered_z(node_after(leaf, path, (k - 1) as nat), sib, right);
        assert(input.len() == 8);
        lemma_perm_row_bound(input, 31);
    }
}

} // verus!
