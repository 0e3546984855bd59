//! Hashes of the spend circuits: ownership tags, note commitments, nullifiers, and the sparse
//! Merkle tree that notes live in.
use crate::cols::is_pow2;
use crate::field::ints;
use crate::fri_merkle::{
    ancestor, auth_path, build_tree, can_open, is_tree, law_opening_folds_to_root, level_len,
    opening, sibling_index, tree_node,
};
use crate::merkle::{first_half, join, merge_z, node_after, path_z, root_of, take4, Digest};
use crate::poseidon2::{native_permute, perm};
use vstd::arithmetic::power2::pow2;
use vstd::prelude::*;

verus! {

/// Inputs of a transaction.
pub const N_IN: usize = 2;

/// Outputs of a transaction.
pub const M_OUT: usize = 2;

/// The depth of the note tree.
pub const DEPTH: usize = 32;

/// The bound on the bits of a value: two values never wrap around the field order.
pub const BITS: usize = 52;

pub const DIGEST: usize = 4;

/// The domain tags of the three tagged hashes.
#[derive(Clone, Copy, Debug)]
pub struct Domains {
    pub own: u64,
    pub cm: u64,
    pub nf: u64,
}

/// A tagged state: the domain, the elements, then zeros.
pub open spec fn tagged(domain: int, elems: Seq<int>) -> Seq<int> {
    Seq::new(
        8,
        |i: int|
            if i == 0 {
                domain
            } else if i <= elems.len() {
                elems[i - 1]
            } else {
                0
            },
    )
}

/// The tagged hash of at most seven elements.
pub open spec fn h_z(domain: int, elems: Seq<int>) -> Seq<int> {
    take4(perm(tagged(domain, elems)))
}

/// The tagged hash of at most seven elements.
pub fn h(domain: u64, elems: &[u64]) -> (d: Digest)
    requires
        elems@.len() <= 7,
    ensures
        ints(d@) == h_z(domain as int, ints(elems@)),
        forall|s: Seq<int>|
            s.len() == 8 && s[0] == domain && (forall|i: int|
                #![trigger s[i + 1]]
                0 <= i < elems@.len() ==> s[i + 1] == elems@[i]) && (forall|j: int|
                elems@.len() < j < 8 ==> #[trigger] s[j] == 0) ==> ints(d@) == (#[trigger] perm(
                s,
            )).subrange(0, 4),
{
    let mut s: [u64; 8] = [0; 8];
    s[0] = domain;
    let n: usize = elems.len();
    for i in 0..n
        invariant
            n == elems@.len(),
            n <= 7,
            s@[0] == domain,
            forall|j: int| 1 <= j <= i ==> #[trigger] s@[j] == elems@[j - 1],
            forall|j: int| i < j < 8 ==> #[trigger] s@[j] == 0,
    {
        s[i + 1] = elems[i];
    }
    assert(ints(s@) =~= tagged(domain as int, ints(elems@)));
    proof {
        assert forall|t: Seq<int>|
            t.len() == 8 && t[0] == domain && (forall|i: int|
                #![trigger t[i + 1]]
                0 <= i < elems@.len() ==> t[i + 1] == elems@[i]) && (forall|j: int|
                elems@.len() < j < 8 ==> #[trigger] t[j] == 0) implies h_z(
            domain as int,
            ints(elems@),
        ) == (#[trigger] perm(t)).subrange(0, 4) by {
            assert forall|i: int| 0 <= i < elems@.len() implies t[i + 1] == ints(elems@)[i] by {
                assert(t[i + 1] == elems@[i]);
            }
            law_hash_state(domain as int, ints(elems@), t);
        }
    }
    first_half(native_permute(s))
}

/// The tagged hash is the first half of the permuted state that has the domain in its first lane, every
/// element in the lane behind, in order, and zeros in the lanes that are left.
pub proof fn law_hash_state(domain: int, elems: Seq<int>, s: Seq<int>)
    requires
        elems.len() <= 7,
        s.len() == 8,
        s[0] == domain,
        forall|i: int| #![trigger s[i + 1]] 0 <= i < elems.len() ==> s[i + 1] == elems[i],
        forall|j: int| elems.len() < j < 8 ==> #[trigger] s[j] == 0,
    ensures
        h_z(domain, elems) == perm(s).subrange(0, 4),
{
    let t = tagged(domain, elems);
    assert forall|j: int| 0 <= j < 8 implies t[j] == s[j] by {
        if 1 <= j <= elems.len() {
            assert(s[(j - 1) + 1] == elems[j - 1]);
        }
    }
    assert(t =~= s);
    lemma_half(s);
}

/// The first half of a permuted state.
proof fn lemma_half(s: Seq<int>)
    requires
        s.len() == 8,
    ensures
        take4(perm(s)) == perm(s).subrange(0, 4),
{
    crate::poseidon2::lemma_perm_row_bound(s, 31);
    assert(take4(perm(s)) =~= perm(s).subrange(0, 4));
}

/// Tagged hashes of as many elements read the same state only where the domains and all elements are the
/// same.
pub proof fn law_hash_injective(d: int, a: Seq<int>, e: int, b: Seq<int>)
    requires
        a.len() <= 7,
        a.len() == b.len(),
        tagged(d, a) == tagged(e, b),
    ensures
        d == e,
        a == b,
{
    let (s, t) = (tagged(d, a), tagged(e, b));
    assert(s[0] == t[0]);
    assert forall|i: int| 0 <= i < a.len() implies a[i] == b[i] by {
        assert(s[i + 1] == t[i + 1]);
    }
    assert(a =~= b);
}

/// The ownership tag of a diversified address.
pub fn recipient_of(dom: &Domains, nk0: u64, nk1: u64, d: u64) -> (r: Digest)
    ensures
        ints(r@) == h_z(dom.own as int, seq![nk0 as int, nk1 as int, d as int]),
        ints(r@) == perm(
            seq![dom.own as int, nk0 as int, nk1 as int, d as int, 0, 0, 0, 0],
        ).subrange(0, 4),
{
    let e: [u64; 3] = [nk0, nk1, d];
    assert(ints(e@) =~= seq![nk0 as int, nk1 as int, d as int]);
    proof {
        law_owner_state(dom.own as int, nk0 as int, nk1 as int, d as int);
    }
    h(dom.own, &e)
}

/// The ownership tag has both halves of the nullifier key and the diversifier in its state.
pub proof fn law_owner_state(own: int, nk0: int, nk1: int, d: int)
    ensures
        h_z(own, seq![nk0, nk1, d]) == perm(seq![own, nk0, nk1, d, 0, 0, 0, 0]).subrange(0, 4),
{
    law_hash_state(own, seq![nk0, nk1, d], seq![own, nk0, nk1, d, 0, 0, 0, 0]);
}

/// The commitment to a note: a tagged permutation of owner, value and randomness, chained into a
/// second one with the hiding randomness, the asset and the note type.
pub open spec fn commit_z(
    cm: int,
    owner: Seq<int>,
    value: int,
    rho: Seq<int>,
    rcm: Seq<int>,
    asset: int,
    note_type: int,
) -> Seq<int> {
    let chain = take4(
        perm(
            seq![cm, owner[0], owner[1], owner[2], owner[3], value, rho[0], rho[1]],
        ),
    );
    take4(perm(chain + seq![rcm[0], rcm[1], asset, note_type]))
}

/// The commitment to a note.
pub fn commit(
    dom: &Domains,
    owner: Digest,
    value: u64,
    rho: [u64; 2],
    rcm: [u64; 2],
    asset: u64,
    note_type: u64,
) -> (r: Digest)
    ensures
        ints(r@) == commit_z(
            dom.cm as int,
            ints(owner@),
            value as int,
            ints(rho@),
            ints(rcm@),
            asset as int,
            note_type as int,
        ),
        ({
            let first = perm(
                seq![
                    dom.cm as int,
                    owner@[0] as int,
                    owner@[1] as int,
                    owner@[2] as int,
                    owner@[3] as int,
                    value as int,
                    rho@[0] as int,
                    rho@[1] as int,
                ],
            );
            ints(r@) == perm(
                seq![
                    first[0],
                    first[1],
                    first[2],
                    first[3],
                    rcm@[0] as int,
                    rcm@[1] as int,
                    asset as int,
                    note_type as int,
                ],
            ).subrange(0, 4)
        }),
{
    let a: [u64; 8] = [
        dom.cm,
        owner[0],
        owner[1],
        owner[2],
        owner[3],
        value,
        rho[0],
        rho[1],
    ];
    let ghost (oz, rz, cz) = (ints(owner@), ints(rho@), ints(rcm@));
    assert(ints(a@) =~= seq![
        dom.cm as int,
        oz[0],
        oz[1],
        oz[2],
        oz[3],
        value as int,
        rz[0],
        rz[1],
    ]);
    let chain: Digest = first_half(native_permute(a));
    let tail: Digest = [rcm[0], rcm[1], asset, note_type];
    assert(ints(tail@) =~= seq![cz[0], cz[1], asset as int, note_type as int]);
    proof {
        law_commit_states(
            dom.cm as int,
            oz,
            value as int,
            rz,
            cz,
            asset as int,
            note_type as int,
        );
    }
    first_half(native_permute(join(chain, tail)))
}

/// A commitment is the first half of a permuted state that has the first half of another in its front,
/// then the hiding randomness, the asset and the note type; the other has the domain, the owner, the value
/// and the note's own randomness. Every field of the note stands in a lane of its own.
pub proof fn law_commit_states(
    cm: int,
    owner: Seq<int>,
    value: int,
    rho: Seq<int>,
    rcm: Seq<int>,
    asset: int,
    note_type: int,
)
    ensures
        ({
            let a = perm(
                seq![cm, owner[0], owner[1], owner[2], owner[3], value, rho[0], rho[1]],
            );
            commit_z(cm, owner, value, rho, rcm, asset, note_type) == perm(
                seq![a[0], a[1], a[2], a[3], rcm[0], rcm[1], asset, note_type],
            ).subrange(0, 4)
        }),
{
    let a = perm(seq![cm, owner[0], owner[1], owner[2], owner[3], value, rho[0], rho[1]]);
    let b = seq![a[0], a[1], a[2], a[3], rcm[0], rcm[1], asset, note_type];
    assert(take4(a) + seq![rcm[0], rcm[1], asset, note_type] =~= b);
    lemma_half(b);
}

/// Two notes with one commitment are one note, or two different states have permutations with the same
/// first half: those of the first permutation, or those of the second.
pub proof fn law_commit_binding(
    cm: int,
    x: (Seq<int>, int, Seq<int>, Seq<int>, int, int),
    y: (Seq<int>, int, Seq<int>, Seq<int>, int, int),
)
    requires
        x.0.len() == 4,
        y.0.len() == 4,
        x.2.len() == 2,
        y.2.len() == 2,
        x.3.len() == 2,
        y.3.len() == 2,
        commit_z(cm, x.0, x.1, x.2, x.3, x.4, x.5) == commit_z(cm, y.0, y.1, y.2, y.3, y.4, y.5),
        x != y,
    ensures
        ({
            let a = seq![cm, x.0[0], x.0[1], x.0[2], x.0[3], x.1, x.2[0], x.2[1]];
            let b = seq![cm, y.0[0], y.0[1], y.0[2], y.0[3], y.1, y.2[0], y.2[1]];
            let s = perm(a).subrange(0, 4) + seq![x.3[0], x.3[1], x.4, x.5];
            let t = perm(b).subrange(0, 4) + seq![y.3[0], y.3[1], y.4, y.5];
            ||| a != b && perm(a).subrange(0, 4) == perm(b).subrange(0, 4)
            ||| s != t && perm(s).subrange(0, 4) == perm(t).subrange(0, 4)
        }),
{
    let a = seq![cm, x.0[0], x.0[1], x.0[2], x.0[3], x.1, x.2[0], x.2[1]];
    let b = seq![cm, y.0[0], y.0[1], y.0[2], y.0[3], y.1, y.2[0], y.2[1]];
    let s = perm(a).subrange(0, 4) + seq![x.3[0], x.3[1], x.4, x.5];
    let t = perm(b).subrange(0, 4) + seq![y.3[0], y.3[1], y.4, y.5];
    crate::poseidon2::lemma_perm_row_bound(a, 31);
    crate::poseidon2::lemma_perm_row_bound(b, 31);
    law_commit_states(cm, x.0, x.1, x.2, x.3, x.4, x.5);
    law_commit_states(cm, y.0, y.1, y.2, y.3, y.4, y.5);
    let (pa, pb) = (perm(a), perm(b));
    assert(s =~= seq![pa[0], pa[1], pa[2], pa[3], x.3[0], x.3[1], x.4, x.5]);
    assert(t =~= seq![pb[0], pb[1], pb[2], pb[3], y.3[0], y.3[1], y.4, y.5]);
    assert(perm(s).subrange(0, 4) == perm(t).subrange(0, 4));
    if s == t {
        assert(perm(a).subrange(0, 4) =~= perm(b).subrange(0, 4)) by {
            assert(s.subrange(0, 4) =~= perm(a).subrange(0, 4));
            assert(t.subrange(0, 4) =~= perm(b).subrange(0, 4));
        }
        assert(s[4] == t[4] && s[5] == t[5] && s[6] == t[6] && s[7] == t[7]);
        assert(x.3 =~= y.3);
        if a == b {
            assert(a[1] == b[1] && a[2] == b[2] && a[3] == b[3] && a[4] == b[4]);
            assert(a[5] == b[5] && a[6] == b[6] && a[7] == b[7]);
            assert(x.0 =~= y.0);
            assert(x.2 =~= y.2);
        }
    }
}

/// The nullifier of a plain note.
pub fn nullifier(dom: &Domains, nk0: u64, nk1: u64, rho: [u64; 2], pos: u64) -> (r: Digest)
    ensures
        ints(r@) == h_z(
            dom.nf as int,
            seq![nk0 as int, nk1 as int, rho@[0] as int, rho@[1] as int, pos as int],
        ),
        ints(r@) == perm(
            seq![
                dom.nf as int,
                nk0 as int,
                nk1 as int,
                rho@[0] as int,
                rho@[1] as int,
                pos as int,
                0,
                0,
            ],
        ).subrange(0, 4),
{
    proof {
        law_nullifier_state(
            dom.nf as int,
            nk0 as int,
            nk1 as int,
            rho@[0] as int,
            rho@[1] as int,
            pos as int,
        );
    }
    let e: [u64; 5] = [nk0, nk1, rho[0], rho[1], pos];
    assert(ints(e@) =~= seq![
        nk0 as int,
        nk1 as int,
        rho@[0] as int,
        rho@[1] as int,
        pos as int,
    ]);
    h(dom.nf, &e)
}

/// The nullifier has both halves of the nullifier key, both elements of the note's randomness and its
/// position in its state.
pub proof fn law_nullifier_state(nf: int, nk0: int, nk1: int, rho0: int, rho1: int, pos: int)
    ensures
        h_z(nf, seq![nk0, nk1, rho0, rho1, pos]) == perm(
            seq![nf, nk0, nk1, rho0, rho1, pos, 0, 0],
        ).subrange(0, 4),
{
    law_hash_state(
        nf,
        seq![nk0, nk1, rho0, rho1, pos],
        seq![nf, nk0, nk1, rho0, rho1, pos, 0, 0],
    );
}

/// The two-to-one compression of the note tree.
pub fn merge(l: Digest, r: Digest) -> (d: Digest)
    ensures
        ints(d@) == merge_z(ints(l@), ints(r@)),
{
    crate::merkle::merge(l, r)
}

/// The number whose bits from `k` on, the lowest first, are those of `bits`.
pub open spec fn pos_from(bits: Seq<bool>, k: int) -> int
    decreases bits.len() - k,
{
    if k >= bits.len() {
        0
    } else {
        (if bits[k] {
            1int
        } else {
            0int
        }) + 2 * pos_from(bits, k + 1)
    }
}

proof fn lemma_pos_bound(bits: Seq<bool>, k: int)
    requires
        0 <= k <= bits.len(),
    ensures
        0 <= pos_from(bits, k) < pow2((bits.len() - k) as nat),
    decreases bits.len() - k,
{
    vstd::arithmetic::power2::lemma2_to64();
    if k < bits.len() {
        lemma_pos_bound(bits, k + 1);
        vstd::arithmetic::power2::lemma_pow2_unfold((bits.len() - k) as nat);
    }
}

/// The tree position that the directions of a path give.
pub fn pos_of(bits: &[bool; 32]) -> (r: u64)
    ensures
        r == pos_from(bits@, 0),
        r < 0x1_0000_0000,
{
    let mut p: u64 = 0;
    let mut d: usize = DEPTH;
    while d > 0
        invariant
            d <= 32,
            p == pos_from(bits@, d as int),
        decreases d,
    {
        d = d - 1;
        proof {
            lemma_pos_bound(bits@, d + 1);
            vstd::arithmetic::power2::lemma_pow2_strictly_increases((31 - d) as nat, 33);
            vstd::arithmetic::power2::lemma2_to64();
        }
        let b: u64 = if bits[d] {
            1
        } else {
            0
        };
        p = 2 * p + b;
    }
    proof {
        lemma_pos_bound(bits@, 0);
        vstd::arithmetic::power2::lemma2_to64();
    }
    p
}

/// Bit `d` of a position is direction `d` of the path.
pub proof fn law_position_bits(bits: Seq<bool>, d: nat)
    requires
        d < bits.len(),
    ensures
        (pos_from(bits, 0) / (pow2(d) as int)) % 2 == (if bits[d as int] {
            1int
        } else {
            0int
        }),
{
    lemma_pos_shift(bits, d);
}

proof fn lemma_pos_shift(bits: Seq<bool>, d: nat)
    requires
        d <= bits.len(),
    ensures
        pos_from(bits, 0) / (pow2(d) as int) == pos_from(bits, d as int),
    decreases d,
{
    vstd::arithmetic::power2::lemma2_to64();
    lemma_pos_bound(bits, d as int);
    if d > 0 {
        let e = (d - 1) as nat;
        lemma_pos_shift(bits, e);
        lemma_pos_bound(bits, 0);
        vstd::arithmetic::power2::lemma_pow2_unfold(d);
        vstd::arithmetic::power2::lemma_pow2_pos(e);
        vstd::arithmetic::div_mod::lemma_div_denominator(
            pos_from(bits, 0),
            pow2(e) as int,
            2,
        );
        assert(pow2(e) as int * 2 == pow2(d) as int);
        let y = pos_from(bits, d as int);
        assert(pos_from(bits, e as int) == (if bits[e as int] {
            1int
        } else {
            0int
        }) + 2 * y);
        assert(pos_from(bits, e as int) / 2 == y);
    } else {
        vstd::arithmetic::div_mod::lemma_div_basics(pos_from(bits, 0));
    }
}

/// The siblings and directions of a fixed-depth path.
pub open spec fn pairs(sib: Seq<Digest>, bits: Seq<bool>) -> Seq<(Seq<int>, bool)> {
    Seq::new(sib.len(), |d: int| (ints(sib[d]@), bits[d]))
}

/// Folds a leaf up a path to the root.
pub fn fold(leaf: Digest, sib: &[Digest; 32], bits: &[bool; 32]) -> (r: Digest)
    ensures
        ints(r@) == root_of(ints(leaf@), pairs(sib@, bits@)),
{
    let mut node: Digest = leaf;
    for d in 0..32
        invariant
            ints(node@) == node_after(ints(leaf@), pairs(sib@, bits@), d as nat),
    {
        assert(pairs(sib@, bits@)[d as int] == (ints(sib@[d as int]@), bits@[d as int]));
        node = if bits[d] {
            merge(sib[d], node)
        } else {
            merge(node, sib[d])
        };
    }
    node
}

/// The public outputs of a spend: the anchor, the nullifiers, the commitments to the outputs.
#[derive(Clone, Copy, Debug)]
pub struct PublicOutputs {
    pub anchor: Digest,
    pub nullifiers: [Digest; 2],
    pub out_cms: [Digest; 2],
}

/// The root of an empty subtree of depth `d`.
pub open spec fn empty_z(d: nat) -> Seq<int>
    decreases d,
{
    if d == 0 {
        seq![0int, 0, 0, 0]
    } else {
        merge_z(empty_z((d - 1) as nat), empty_z((d - 1) as nat))
    }
}

/// The roots of empty subtrees.
pub fn empty_hashes() -> (e: [Digest; 32])
    ensures
        forall|d: int| 0 <= d < 32 ==> ints((#[trigger] e@[d])@) == empty_z(d as nat),
{
    let mut e: [Digest; 32] = [[0; 4]; 32];
    assert(ints(e@[0]@) =~= seq![0int, 0, 0, 0]);
    for d in 1..32
        invariant
            forall|j: int| 0 <= j < d ==> ints((#[trigger] e@[j])@) == empty_z(j as nat),
    {
        let below: Digest = e[d - 1];
        assert(ints(e@[d - 1]@) == empty_z((d - 1) as nat));
        let up: Digest = merge(below, below);
        let ghost before = e@;
        e[d] = up;
        assert(forall|j: int| 0 <= j < d ==> e@[j] == before[j]);
    }
    e
}

/// The path of leaf `p` in the tree that holds `leaves` in its leftmost subtree of depth `k` and is
/// empty elsewhere.
pub open spec fn sparse_path(leaves: Seq<Digest>, k: nat, p: int) -> Seq<(Seq<int>, bool)> {
    Seq::new(
        32,
        |d: int|
            if d < k {
                (
                    tree_node(leaves, d as nat, sibling_index(ancestor(p, d as nat))),
                    ancestor(p, d as nat) % 2 == 1,
                )
            } else {
                (empty_z(d as nat), false)
            },
    )
}

/// The root of the tree that holds `leaves` in its leftmost subtree of depth `k` and is empty
/// elsewhere: level `d >= k` of its leftmost branch.
pub open spec fn sparse_node(leaves: Seq<Digest>, k: nat, d: nat) -> Seq<int>
    decreases d,
{
    if d <= k {
        tree_node(leaves, k, 0)
    } else {
        merge_z(sparse_node(leaves, k, (d - 1) as nat), empty_z((d - 1) as nat))
    }
}

proof fn lemma_sparse_path_folds(leaves: Seq<Digest>, k: nat, p: int, d: nat)
    requires
        is_pow2(leaves.len() as int),
        level_len(leaves.len() as int, k) == 1,
        k <= 32,
        0 <= p < leaves.len(),
        d <= 32,
    ensures
        d <= k ==> node_after(ints(leaves[p]@), sparse_path(leaves, k, p), d) == tree_node(
            leaves,
            d,
            ancestor(p, d),
        ),
        d >= k ==> node_after(ints(leaves[p]@), sparse_path(leaves, k, p), d) == sparse_node(
            leaves,
            k,
            d,
        ),
    decreases d,
{
    let n = leaves.len() as int;
    let path = sparse_path(leaves, k, p);
    if d > 0 {
        let e = (d - 1) as nat;
        lemma_sparse_path_folds(leaves, k, p, e);
        if d <= k {
            crate::fri_merkle::lemma_level_mono(n, d, k);
            crate::fri_merkle::lemma_ancestor(n, p, d);
            let (a, b) = (ancestor(p, e), ancestor(p, d));
            let s = sibling_index(a);
            if a % 2 == 1 {
                assert(2 * b == s && 2 * b + 1 == a);
            } else {
                assert(2 * b == a && 2 * b + 1 == s);
            }
        }
    }
    if d == k {
        crate::fri_merkle::lemma_ancestor(n, p, k);
    }
}

/// Builds the tree that holds `leaves` in its leftmost subtree: its root, and the path of each leaf.
pub fn build_paths(leaves: &[Digest]) -> (r: (Digest, Vec<([Digest; 32], [bool; 32])>))
    requires
        is_pow2(leaves@.len() as int),
        leaves@.len() <= 0x1_0000_0000,
    ensures
        exists|k: nat|
            #![trigger level_len(leaves@.len() as int, k)]
            k <= 32 && level_len(leaves@.len() as int, k) == 1 && ints(r.0@) == sparse_node(
                leaves@,
                k,
                32,
            ) && r.1@.len() == leaves@.len() && forall|p: int|
                #![trigger r.1@[p]]
                0 <= p < leaves@.len() ==> pairs(r.1@[p].0@, r.1@[p].1@) == sparse_path(
                    leaves@,
                    k,
                    p,
                ),
        r.1@.len() == leaves@.len(),
        forall|p: int|
            #![trigger r.1@[p]]
            0 <= p < leaves@.len() ==> root_of(
                ints(leaves@[p]@),
                pairs(r.1@[p].0@, r.1@[p].1@),
            ) == ints(r.0@),
{
    let n: usize = leaves.len();
    let levels: Vec<Vec<Digest>> = build_tree(leaves);
    let k: usize = levels.len() - 1;
    let e: [Digest; 32] = empty_hashes();
    proof {
        vstd::arithmetic::power2::lemma2_to64();
        lemma_levels_bound(n as int, k as nat, 32);
    }
    let mut anchor: Digest = levels[k][0];
    assert(ints(levels@[k as int]@[0]@) == tree_node(leaves@, k as nat, 0));
    for d in k..32
        invariant
            k <= 32,
            forall|j: int| 0 <= j < 32 ==> ints((#[trigger] e@[j])@) == empty_z(j as nat),
            ints(anchor@) == sparse_node(leaves@, k as nat, d as nat),
    {
        assert(ints(e@[d as int]@) == empty_z(d as nat));
        anchor = merge(anchor, e[d]);
    }
    let mut paths: Vec<([Digest; 32], [bool; 32])> = Vec::new();
    for p in 0..n
        invariant
            n == leaves@.len(),
            k == levels.len() - 1,
            k <= 32,
            is_tree(levels@, leaves@),
            is_pow2(leaves@.len() as int),
            forall|j: int| 0 <= j < 32 ==> ints((#[trigger] e@[j])@) == empty_z(j as nat),
            paths.len() == p,
            forall|q: int|
                #![trigger paths@[q]]
                0 <= q < p ==> pairs(paths@[q].0@, paths@[q].1@) == sparse_path(
                    leaves@,
                    k as nat,
                    q,
                ),
    {
        proof {
            law_opening_folds_to_root(levels@, leaves@, p as int);
        }
        let (_leaf, path, _root) = opening(levels.as_slice(), p);
        let mut sib: [Digest; 32] = e;
        let mut bits: [bool; 32] = [false; 32];
        for d in 0..k
            invariant
                k <= 32,
                k == levels.len() - 1,
                p < leaves@.len(),
                is_tree(levels@, leaves@),
                is_pow2(leaves@.len() as int),
                path.len() == k,
                path_z(path@) == auth_path(levels@, p as int),
                can_open(levels@, p as int),
                forall|j: int| d <= j < 32 ==> (#[trigger] sib@[j]) == e@[j],
                forall|j: int| d <= j < 32 ==> !(#[trigger] bits@[j]),
                forall|j: int|
                    0 <= j < d ==> (ints((#[trigger] sib@[j])@), bits@[j]) == sparse_path(
                        leaves@,
                        k as nat,
                        p as int,
                    )[j],
        {
            let (s, right) = path[d];
            proof {
                let a = sibling_index(ancestor(p as int, d as nat));
                assert(path_z(path@)[d as int] == (ints(s@), right));
                assert(a < levels@[d as int].len());
                assert(a >= 0) by {
                    crate::fri_merkle::lemma_level_mono(leaves@.len() as int, d as nat, k as nat);
                    crate::fri_merkle::lemma_ancestor(leaves@.len() as int, p as int, d as nat);
                }
                assert(ints(levels@[d as int]@[a]@) == tree_node(leaves@, d as nat, a));
            }
            sib[d] = s;
            bits[d] = right;
        }
        assert(pairs(sib@, bits@) =~= sparse_path(leaves@, k as nat, p as int)) by {
            assert forall|j: int| 0 <= j < 32 implies pairs(sib@, bits@)[j] == sparse_path(
                leaves@,
                k as nat,
                p as int,
            )[j] by {
                if j < k {
                    assert((ints(sib@[j]@), bits@[j]) == sparse_path(
                        leaves@,
                        k as nat,
                        p as int,
                    )[j]);
                } else {
                    assert(sib@[j] == e@[j] && !bits@[j]);
                }
            }
        }
        paths.push((sib, bits));
    }
    proof {
        assert forall|p: int|
            #![trigger paths@[p]]
            0 <= p < leaves@.len() implies root_of(
            ints(leaves@[p]@),
            pairs(paths@[p].0@, paths@[p].1@),
        ) == ints(anchor@) by {
            lemma_sparse_path_folds(leaves@, k as nat, p, 32);
            assert(pairs(paths@[p].0@, paths@[p].1@).len() == 32);
        }
        assert(level_len(leaves@.len() as int, k as nat) == 1);
    }
    (anchor, paths)
}

proof fn lemma_levels_bound(n: int, k: nat, m: nat)
    requires
        1 <= n <= pow2(m),
        level_len(n, k) >= 1,
    ensures
        k <= m,
{
    lemma_level_times(n, k);
    if k > m {
        vstd::arithmetic::power2::lemma_pow2_strictly_increases(m, k);
        assert(level_len(n, k) * pow2(k) > n) by (nonlinear_arith)
            requires
                level_len(n, k) >= 1,
                pow2(k) > pow2(m),
                n <= pow2(m),
        ;
    }
}

proof fn lemma_level_times(n: int, k: nat)
    requires
        n >= 0,
    ensures
        0 <= level_len(n, k),
        level_len(n, k) * pow2(k) <= n,
    decreases k,
{
    vstd::arithmetic::power2::lemma2_to64();
    if k > 0 {
        let j = (k - 1) as nat;
        lemma_level_times(n, j);
        vstd::arithmetic::power2::lemma_pow2_unfold(k);
        let (a, b, p) = (level_len(n, j), level_len(n, k), pow2(j));
        assert(b * (2 * p) <= a * p) by (nonlinear_arith)
            requires
                2 * b <= a,
                p >= 0,
        ;
    } else {
        assert(n * 1 == n);
    }
}

} // verus!
