//! Commitments to matrices: the hash of a row, the path that an index gives, and the check of an
//! opening against a Merkle cap.
use crate::bits::shr_z;
use crate::challenger::views;
use crate::cols::is_pow2;
use crate::field::{ints, red, Challenge};
use crate::merkle::{first_half, path_z, root_of, take4, Digest};
use crate::monolith::leaf_hash::{hash_digest, hash_input};
use crate::poseidon2::{native_permute, perm};
use p3_commit::{BatchOpeningRef, ExtensionMmcs, Mmcs};
use p3_field::extension::BinomialExtensionField;
use p3_field::Field;
use p3_goldilocks::{default_goldilocks_poseidon2_8, Goldilocks, Poseidon2Goldilocks};
use p3_matrix::Dimensions;
use p3_merkle_tree::MerkleTreeMmcs;
use p3_symmetric::{MerkleCap, PaddingFreeSponge, TruncatedPermutation};
use vstd::arithmetic::power2::pow2;
use vstd::prelude::*;

verus! {

/// The extension, as p3-field has it.
pub type Pair = BinomialExtensionField<Goldilocks, 2>;

/// The packed elements that the tree is hashed with.
pub type Packed = <Goldilocks as Field>::Packing;

/// The hash of a row, as p3-symmetric has it.
pub type Sponge = PaddingFreeSponge<Poseidon2Goldilocks<8>, 8, 4, 4>;

/// The compression of two digests, as p3-symmetric has it.
pub type Compression = TruncatedPermutation<Poseidon2Goldilocks<8>, 2, 4, 8>;

/// The commitment scheme of the matrices, as p3-merkle-tree has it.
pub type Tree = MerkleTreeMmcs<Packed, Packed, Sponge, Compression, 2, 4>;

/// The state with block `b` of a row in its rate lanes; lanes beyond the row keep what they hold.
pub open spec fn overwritten(state: Seq<int>, row: Seq<int>, b: int) -> Seq<int> {
    Seq::new(
        8,
        |i: int|
            if i < 4 && 4 * b + i < row.len() {
                row[4 * b + i]
            } else {
                state[i]
            },
    )
}

/// The state behind the first `n` blocks of a row.
pub open spec fn row_state(row: Seq<int>, n: nat) -> Seq<int>
    decreases n,
{
    if n == 0 {
        seq![0int, 0, 0, 0, 0, 0, 0, 0]
    } else {
        perm(overwritten(row_state(row, (n - 1) as nat), row, n - 1))
    }
}

/// The hash of a row: the front of the state behind its last block, full or not.
pub open spec fn row_hash(row: Seq<int>) -> Seq<int> {
    take4(row_state(row, ((row.len() + 3) / 4) as nat))
}

/// The hash of a row.
pub fn hash_row(row: &[u64]) -> (r: Digest)
    requires
        row@.len() + 3 <= usize::MAX,
    ensures
        ints(r@) == row_hash(ints(row@)),
{
    let len: usize = row.len();
    let n: usize = (len + 3) / 4;
    let ghost z = ints(row@);
    let mut s: [u64; 8] = [0; 8];
    assert(ints(s@) =~= row_state(z, 0));
    for b in 0..n
        invariant
            len == row@.len(),
            n == (len + 3) / 4,
            len + 3 <= usize::MAX,
            z == ints(row@),
            ints(s@) == row_state(z, b as nat),
    {
        let ghost before = s@;
        for i in 0..4
            invariant
                len == row@.len(),
                4 * b + 3 < len + 3 <= usize::MAX,
                forall|j: int|
                    0 <= j < 8 ==> #[trigger] s@[j] == (if j < i && 4 * b + j < len {
                        row@[4 * b + j]
                    } else {
                        before[j]
                    }),
        {
            if 4 * b + i < len {
                s[i] = row[4 * b + i];
            }
        }
        assert(ints(s@) =~= overwritten(ints(before), z, b as int));
        s = native_permute(s);
    }
    first_half(s)
}

/// The hash of a row of whole blocks is the digest of its blocks.
pub proof fn law_row_hash_blocks(row: Seq<int>, m: nat)
    requires
        m > 0,
        row.len() == 4 * m,
    ensures
        row_hash(row) == hash_digest(row, m),
{
    lemma_row_state(row, m);
    assert((row.len() + 3) / 4 == m);
}

proof fn lemma_row_state(row: Seq<int>, n: nat)
    requires
        0 < n,
        4 * n <= row.len(),
    ensures
        row_state(row, n) == perm(hash_input(row, (n - 1) as nat)),
    decreases n,
{
    let b = (n - 1) as nat;
    let s = overwritten(row_state(row, b), row, n - 1);
    if b > 0 {
        lemma_row_state(row, b);
        crate::monolith::leaf_hash::lemma_hash_input(row, (b - 1) as nat);
        crate::poseidon2::lemma_perm_row_bound(hash_input(row, (b - 1) as nat), 31);
    }
    crate::monolith::leaf_hash::lemma_hash_input(row, b);
    assert(s =~= hash_input(row, b));
}

/// The path of an index: at every level the sibling, and whether the node is the right child.
pub open spec fn index_path(path: Seq<Digest>, index: int) -> Seq<(Seq<int>, bool)> {
    Seq::new(path.len(), |l: int| (ints(path[l]@), shr_z(index, l as nat) % 2 == 1))
}

/// The path of an index.
pub fn path_of(path: &Vec<Digest>, index: usize) -> (r: Vec<(Digest, bool)>)
    ensures
        path_z(r@) == index_path(path@, index as int),
{
    let n: usize = path.len();
    let mut rest: usize = index;
    let mut r: Vec<(Digest, bool)> = Vec::new();
    for l in 0..n
        invariant
            n == path.len(),
            rest == shr_z(index as int, l as nat),
            r.len() == l,
            forall|j: int|
                0 <= j < l ==> #[trigger] r@[j] == (
                    path@[j],
                    shr_z(index as int, j as nat) % 2 == 1,
                ),
    {
        r.push((path[l], rest % 2 == 1));
        rest = rest / 2;
    }
    assert(path_z(r@) =~= index_path(path@, index as int));
    r
}

/// The rows one behind the other.
pub open spec fn joined(rows: Seq<Seq<int>>, n: nat) -> Seq<int>
    decreases n,
{
    if n == 0 {
        seq![]
    } else {
        joined(rows, (n - 1) as nat) + rows[n - 1]
    }
}

pub open spec fn rows_z(rows: Seq<Vec<u64>>) -> Seq<Seq<int>> {
    Seq::new(rows.len(), |i: int| ints(rows[i]@))
}

/// The length of a path below a cap, in a tree of height `k`.
pub open spec fn path_len(k: nat, cap_height: int) -> int {
    if cap_height < k {
        k - cap_height
    } else {
        0
    }
}

/// An opening of matrices of `2^k` rows each at an index: every row has its matrix's width, the path
/// ends at the cap, and it leads from the hash of the joined rows to the cap's entry.
pub open spec fn merkle_accepts(
    cap_height: int,
    cap: Seq<Digest>,
    widths: Seq<int>,
    k: nat,
    index: int,
    rows: Seq<Seq<int>>,
    path: Seq<Digest>,
) -> bool {
    let at = shr_z(index, path.len());
    &&& rows.len() == widths.len()
    &&& widths.len() > 0
    &&& path.len() == path_len(k, cap_height)
    &&& forall|j: int| 0 <= j < rows.len() ==> (#[trigger] rows[j]).len() == widths[j]
    &&& 0 <= index < pow2(k)
    &&& at < cap.len()
    &&& reduced(cap[at]) == root_of(row_hash(joined(rows, rows.len())), index_path(path, index))
}

/// A digest with canonical elements.
pub open spec fn reduced(d: Digest) -> Seq<int> {
    Seq::new(4, |i: int| red(d@[i] as int))
}

/// Widths and heights of matrices.
pub open spec fn widths_of(dims: Seq<(usize, usize)>) -> Seq<int> {
    Seq::new(dims.len(), |i: int| dims[i].0 as int)
}

/// Whether every matrix has `2^k` rows.
pub open spec fn all_high(dims: Seq<(usize, usize)>, k: nat) -> bool {
    forall|i: int| 0 <= i < dims.len() ==> (#[trigger] dims[i]).1 == pow2(k)
}

/// Whether an opening of a batch of matrices is that of the cap.
pub uninterp spec fn batch_accepts(
    cap_height: int,
    cap: Seq<Digest>,
    dims: Seq<(usize, usize)>,
    index: int,
    rows: Seq<Seq<int>>,
    path: Seq<Digest>,
) -> bool;

/// Whether an opening of a batch of matrices is that of the cap, with what that takes where the
/// matrices have one height.
pub open spec fn opening_accepts(
    cap_height: int,
    cap: Seq<Digest>,
    dims: Seq<(usize, usize)>,
    index: int,
    rows: Seq<Seq<int>>,
    path: Seq<Digest>,
) -> bool {
    &&& batch_accepts(cap_height, cap, dims, index, rows, path)
    &&& forall|k: nat| #[trigger]
        all_high(dims, k) ==> merkle_accepts(
            cap_height,
            cap,
            widths_of(dims),
            k,
            index,
            rows,
            path,
        )
}

/// `MerkleTreeMmcs::verify_batch` of p3-merkle-tree, for the binary tree of four-element digests over
/// the width-eight permutation, with rows hashed by the padding-free sponge. The result depends on
/// nothing but the arguments. Matrices of one height are hashed together into the leaf, so for them
/// the result is stated; with several heights it is only named. Building the cap panics where its
/// length is no power of two, and the largest heights overflow.
#[verifier::external_body]
pub(crate) fn mmcs_verify_batch(
    cap_height: usize,
    cap: &Vec<Digest>,
    dims: &Vec<(usize, usize)>,
    index: usize,
    rows: &Vec<Vec<u64>>,
    path: &Vec<Digest>,
) -> (r: bool)
    requires
        is_pow2(cap.len() as int),
        forall|i: int| 0 <= i < dims.len() ==> (#[trigger] dims@[i]).1 <= usize::MAX / 2,
    ensures
        r == batch_accepts(cap_height as int, cap@, dims@, index as int, rows_z(rows@), path@),
        forall|k: nat|
            #[trigger] all_high(dims@, k) ==> r == merkle_accepts(
                cap_height as int,
                cap@,
                widths_of(dims@),
                k,
                index as int,
                rows_z(rows@),
                path@,
            ),
{
    let felts = |d: &Digest| d.map(Goldilocks::new);
    let d: Vec<_> = dims.iter().map(|&(width, height)| Dimensions { width, height }).collect();
    let v: Vec<_> =
        rows.iter().map(|r| r.iter().copied().map(Goldilocks::new).collect()).collect();
    let s = path.iter().map(felts).collect();
    let c = MerkleCap::new(cap.iter().map(felts).collect());
    let p = default_goldilocks_poseidon2_8;
    Tree::new(Sponge::new(p()), Compression::new(p()), cap_height)
        .verify_batch(&c, &d, index, BatchOpeningRef::new(&v, &s)).is_ok()
}

/// The coordinates of extension elements, one behind the other.
pub open spec fn flattened(row: Seq<(int, int)>) -> Seq<int> {
    Seq::new(
        2 * row.len(),
        |i: int|
            if i % 2 == 0 {
                row[i / 2].0
            } else {
                row[i / 2].1
            },
    )
}

/// An opening of a matrix of `2^k` rows of extension elements.
pub open spec fn group_accepts(
    cap_height: int,
    cap: Seq<Digest>,
    k: nat,
    index: int,
    row: Seq<(int, int)>,
    path: Seq<Digest>,
) -> bool {
    let flat = flattened(row);
    merkle_accepts(cap_height, cap, seq![flat.len() as int], k, index, seq![flat], path)
}

/// `ExtensionMmcs::verify_batch` of p3-commit over the same tree, for one matrix of `height` rows that
/// is as wide as the row: the coordinates of its elements are checked as a row of twice the width.
/// Building the cap panics where its length is no power of two, and the largest heights overflow.
#[verifier::external_body]
pub(crate) fn extension_verify_row(
    cap_height: usize,
    cap: &Vec<Digest>,
    height: usize,
    index: usize,
    row: &Vec<Challenge>,
    path: &Vec<Digest>,
) -> (r: bool)
    requires
        is_pow2(cap.len() as int),
        height <= usize::MAX / 2,
        2 * row.len() <= usize::MAX,
    ensures
        forall|k: nat|
            height == #[trigger] pow2(k) ==> r == group_accepts(
                cap_height as int,
                cap@,
                k,
                index as int,
                views(row@),
                path@,
            ),
{
    let felts = |d: &Digest| d.map(Goldilocks::new);
    let d = [Dimensions { width: row.len(), height }];
    let v = row.iter().map(|x| Pair::new([x.c0, x.c1].map(Goldilocks::new))).collect();
    let s = path.iter().map(felts).collect();
    let c = MerkleCap::new(cap.iter().map(felts).collect());
    let p = default_goldilocks_poseidon2_8;
    let m = Tree::new(Sponge::new(p()), Compression::new(p()), cap_height);
    ExtensionMmcs::new(m).verify_batch(&c, &d, index, BatchOpeningRef::new(&[v], &s)).is_ok()
}

} // verus!
