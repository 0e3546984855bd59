//! What an aggregate takes and what its trace says, in terms of the inputs alone.
use super::tiling::{
    chain_input, chunk_z, oracle_root, root_at, statement_at, statement_z, tiled_row, BlockSource,
    FoldLayout,
};
use crate::field::ints;
use crate::merkle::{merge_z, Digest};
use crate::poseidon2::{lemma_perm_row_bound, perm, perm_row};
use vstd::prelude::*;

verus! {

/// The compression of two digests is the first half of the permutation of both, one behind the other.
pub proof fn law_compression(a: Seq<int>, b: Seq<int>)
    requires
        a.len() == 4,
        b.len() == 4,
    ensures
        merge_z(a, b) == perm(a + b).subrange(0, 4),
        merge_z(a, b).len() == 4,
{
    lemma_perm_row_bound(a + b, 31);
    assert(merge_z(a, b) =~= perm(a + b).subrange(0, 4));
}

proof fn lemma_statement_len(dom: int, sources: Seq<BlockSource>, pvs: Seq<int>, b: nat)
    ensures
        statement_at(dom, sources, pvs, b).len() == 4,
{
}

proof fn lemma_root_len(dom: int, sources: Seq<BlockSource>, pvs: Seq<Vec<u64>>, i: nat)
    ensures
        root_at(dom, sources, pvs, i).len() == 4,
{
}

/// Each of the four lanes of a statement block is the public value that its source names, and zero only
/// where it names none.
pub proof fn law_statement_lane(
    dom: int,
    sources: Seq<BlockSource>,
    pvs: Seq<int>,
    b: int,
    l: int,
)
    requires
        0 <= b < sources.len(),
        0 <= l < 4,
    ensures
        (statement_at(dom, sources, pvs, b as nat) + chunk_z(sources[b], pvs))[4 + l] == (
        match sources[b]@[l] {
            Some(at) => pvs[at as int],
            None => 0,
        }),
{
    lemma_statement_len(dom, sources, pvs, b as nat);
}

/// The digest of a statement starts at the domain, and every block permutes the digest before it with
/// its own four elements.
pub proof fn law_statement_step(dom: int, sources: Seq<BlockSource>, pvs: Seq<int>, b: nat)
    requires
        b <= sources.len(),
    ensures
        b == 0 ==> statement_at(dom, sources, pvs, b) == seq![dom, 0, 0, 0],
        b > 0 ==> ({
            let s = sources[b - 1]@;
            let lane = |l: int|
                match s[l] {
                    Some(at) => pvs[at as int],
                    None => 0,
                };
            statement_at(dom, sources, pvs, b) == perm(
                statement_at(dom, sources, pvs, (b - 1) as nat) + seq![
                    lane(0),
                    lane(1),
                    lane(2),
                    lane(3),
                ],
            ).subrange(0, 4)
        }),
        statement_at(dom, sources, pvs, b).len() == 4,
        b > 0 ==> statement_at(dom, sources, pvs, b) == perm(
            statement_at(dom, sources, pvs, (b - 1) as nat) + chunk_z(sources[b - 1], pvs),
        ).subrange(0, 4),
{
    lemma_statement_len(dom, sources, pvs, b);
    if b > 0 {
        let s = sources[b - 1]@;
        let lane = |l: int|
            match s[l] {
                Some(at) => pvs[at as int],
                None => 0,
            };
        let before = statement_at(dom, sources, pvs, (b - 1) as nat);
        lemma_statement_len(dom, sources, pvs, (b - 1) as nat);
        assert(chunk_z(sources[b - 1], pvs) =~= seq![lane(0), lane(1), lane(2), lane(3)]);
        law_compression(before, chunk_z(sources[b - 1], pvs));
    }
}

/// The digest of a statement is the one behind its last block.
pub proof fn law_statement_digest(dom: int, sources: Seq<BlockSource>, pvs: Seq<int>)
    ensures
        statement_z(dom, sources, pvs) == statement_at(dom, sources, pvs, sources.len()),
        statement_z(dom, sources, pvs).len() == 4,
{
    lemma_statement_len(dom, sources, pvs, sources.len());
}

/// Two statements with one digest have the same public values wherever a source names them, or two
/// different blocks are permuted to the same first half.
pub proof fn law_statement_binding(
    dom: int,
    sources: Seq<BlockSource>,
    x: Seq<int>,
    y: Seq<int>,
    n: nat,
    b: int,
    l: int,
) -> (at: nat)
    requires
        n <= sources.len(),
        0 <= b < n,
        0 <= l < 4,
        sources[b]@[l] is Some,
        x[sources[b]@[l]->0 as int] != y[sources[b]@[l]->0 as int],
        statement_at(dom, sources, x, n) == statement_at(dom, sources, y, n),
    ensures
        at < n,
        ({
            let s = statement_at(dom, sources, x, at) + chunk_z(sources[at as int], x);
            let t = statement_at(dom, sources, y, at) + chunk_z(sources[at as int], y);
            s != t && perm(s).subrange(0, 4) == perm(t).subrange(0, 4)
        }),
    decreases n,
{
    let m = (n - 1) as nat;
    let s = statement_at(dom, sources, x, m) + chunk_z(sources[m as int], x);
    let t = statement_at(dom, sources, y, m) + chunk_z(sources[m as int], y);
    law_statement_step(dom, sources, x, n);
    law_statement_step(dom, sources, y, n);
    if s != t {
        m
    } else {
        law_statement_step(dom, sources, x, m);
        law_statement_step(dom, sources, y, m);
        if b == m {
            law_statement_lane(dom, sources, x, b, l);
            law_statement_lane(dom, sources, y, b, l);
            assert(s[4 + l] == t[4 + l]);
            assert(false);
        }
        assert(s.subrange(0, 4) =~= statement_at(dom, sources, x, m));
        assert(t.subrange(0, 4) =~= statement_at(dom, sources, y, m));
        law_statement_binding(dom, sources, x, y, m, b, l)
    }
}

/// The root starts at zero, and every statement compresses the root before it with its own digest.
pub proof fn law_root_step(dom: int, sources: Seq<BlockSource>, pvs: Seq<Vec<u64>>, i: nat)
    requires
        i < pvs.len(),
    ensures
        root_at(dom, sources, pvs, 0) == seq![0int, 0, 0, 0],
        root_at(dom, sources, pvs, i + 1) == perm(
            root_at(dom, sources, pvs, i) + statement_z(dom, sources, ints(pvs[i as int]@)),
        ).subrange(0, 4),
        root_at(dom, sources, pvs, i).len() == 4,
{
    lemma_root_len(dom, sources, pvs, i);
    law_statement_digest(dom, sources, ints(pvs[i as int]@));
    law_compression(
        root_at(dom, sources, pvs, i),
        statement_z(dom, sources, ints(pvs[i as int]@)),
    );
}

/// Digests fold to zero where there are none, and every further one is compressed behind the root of
/// those before it.
pub proof fn law_digest_step(digests: Seq<Digest>, n: nat)
    requires
        n < digests.len(),
    ensures
        oracle_root(digests, 0) == seq![0int, 0, 0, 0],
        oracle_root(digests, n + 1) == perm(
            oracle_root(digests, n) + ints(digests[n as int]@),
        ).subrange(0, 4),
        oracle_root(digests, n).len() == 4,
{
    assert(oracle_root(digests, n).len() == 4);
    law_compression(oracle_root(digests, n), ints(digests[n as int]@));
}

/// The root of the statements is that of their digests: a batch whose digests are those of its
/// statements is folded to the root that the digests fold to.
pub proof fn law_honest_root(
    dom: int,
    sources: Seq<BlockSource>,
    pvs: Seq<Vec<u64>>,
    digests: Seq<Digest>,
    n: nat,
)
    requires
        n <= pvs.len(),
        n <= digests.len(),
        forall|i: int|
            0 <= i < n ==> ints((#[trigger] digests[i])@) == statement_z(
                dom,
                sources,
                ints(pvs[i]@),
            ),
    ensures
        root_at(dom, sources, pvs, n) == oracle_root(digests, n),
    decreases n,
{
    if n > 0 {
        let m = (n - 1) as nat;
        law_honest_root(dom, sources, pvs, digests, m);
        law_root_step(dom, sources, pvs, m);
        law_digest_step(digests, m);
        assert(ints(digests[m as int]@) == statement_z(dom, sources, ints(pvs[m as int]@)));
    }
}

/// Two batches of as many statements with one root have the same digests, or two different pairs of a
/// root and a digest are compressed to the same root.
pub proof fn law_root_binding(a: Seq<Digest>, b: Seq<Digest>, n: nat, i: int) -> (at: nat)
    requires
        n <= a.len(),
        n <= b.len(),
        0 <= i < n,
        a[i] != b[i],
        oracle_root(a, n) == oracle_root(b, n),
    ensures
        at < n,
        ({
            let s = oracle_root(a, at) + ints(a[at as int]@);
            let t = oracle_root(b, at) + ints(b[at as int]@);
            s != t && perm(s).subrange(0, 4) == perm(t).subrange(0, 4)
        }),
    decreases n,
{
    let m = (n - 1) as nat;
    let s = oracle_root(a, m) + ints(a[m as int]@);
    let t = oracle_root(b, m) + ints(b[m as int]@);
    law_digest_step(a, m);
    law_digest_step(b, m);
    if s != t {
        m
    } else {
        assert(s.subrange(0, 4) =~= oracle_root(a, m));
        assert(t.subrange(0, 4) =~= oracle_root(b, m));
        if i == m {
            assert forall|l: int| 0 <= l < 4 implies a[i]@[l] == b[i]@[l] by {
                assert(s[4 + l] == t[4 + l]);
                assert(ints(a[i]@)[l] == ints(b[i]@)[l]);
            }
            assert(a[i]@ =~= b[i]@);
            assert(a[i] == b[i]);
        }
        law_root_binding(a, b, m, i)
    }
}

/// A cell of the aggregate trace: in a block of the chain, its columns hold the step of the permutation
/// of the block's input; the root's columns hold the root before the instance; the others hold the
/// window, and zeros beyond it.
pub proof fn law_tiled_cell(
    l: FoldLayout,
    windows: Seq<Seq<Seq<int>>>,
    dom: int,
    sources: Seq<BlockSource>,
    pvs: Seq<Vec<u64>>,
    i: int,
    r: int,
    c: int,
)
    requires
        l.fused_w <= l.fold_w,
        l.af_root + 4 <= l.fold_w,
        l.af_p + 8 <= l.fold_w,
        0 <= i < pvs.len(),
        0 <= r,
        0 <= c < l.fold_w,
    ensures
        ({
            let row = tiled_row(l, windows, dom, sources, pvs, i, r);
            let b = r / 32 - l.fold_block;
            let own = ints(pvs[i]@);
            let chained = 0 <= b <= sources.len() && l.af_p <= c < l.af_p + 8;
            let rooted = l.af_root <= c < l.af_root + 4;
            &&& row.len() == l.fold_w
            &&& chained && b < sources.len() ==> row[c] == perm_row(
                statement_at(dom, sources, own, b as nat) + chunk_z(sources[b], own),
                (r % 32) as nat,
            )[c - l.af_p]
            &&& chained && b == sources.len() ==> row[c] == perm_row(
                root_at(dom, sources, pvs, i as nat) + statement_z(dom, sources, own),
                (r % 32) as nat,
            )[c - l.af_p]
            &&& !chained && rooted ==> row[c] == root_at(dom, sources, pvs, i as nat)[c - l.af_root]
            &&& !chained && !rooted && c < l.fused_w ==> row[c] == windows[i][r][c]
            &&& !chained && !rooted && c >= l.fused_w ==> row[c] == 0
        }),
{
    let b = r / 32 - l.fold_block;
    let own = ints(pvs[i]@);
    lemma_root_len(dom, sources, pvs, i as nat);
    law_statement_digest(dom, sources, own);
    if 0 <= b <= sources.len() {
        if b < sources.len() {
            lemma_statement_len(dom, sources, own, b as nat);
        }
        let input = chain_input(dom, sources, pvs, i, b);
        assert(input.len() == 8);
        lemma_perm_row_bound(input, (r % 32) as nat);
    }
}

} // verus!
