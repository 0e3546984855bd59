//! The rows of one query in a trace of any geometry: its folds, its openings, its Merkle blocks with
//! salts where the commitments hide, and the values that all its rows hold.
use super::cells::{
    bare_chain_cells, bare_chain_rows, head_cells, head_row, query_ok, split_cells, split_row, running,
};
use super::fused_trace::TileOpenings;
use crate::aggregate::window::HidingWitness;
use crate::bits::shr_z;
use crate::expr::{cells, Trace};
use crate::field::{ints, red, P};
use crate::merkle::{first_half, node_after, ordered, ordered_z, path_z, root_of, Digest};
use crate::mmcs::{overwritten, row_hash, row_state};
use crate::poseidon2::{native_permute, native_steps, perm_row, BLOCK};
use vstd::arithmetic::power2::pow2;
use vstd::prelude::*;

verus! {

/// Cells to be put into a row, from a column on.
pub struct Patch {
    pub row: int,
    pub col: int,
    pub vals: Seq<int>,
}

/// A row with cells put into it.
pub open spec fn overlaid(row: Seq<int>, col: int, vals: Seq<int>) -> Seq<int> {
    Seq::new(
        row.len(),
        |c: int|
            if col <= c < col + vals.len() {
                vals[c - col]
            } else {
                row[c]
            },
    )
}

/// A trace with cells put into one of its rows.
pub open spec fn laid(t: Seq<Seq<int>>, p: Patch) -> Seq<Seq<int>> {
    t.update(p.row, overlaid(t[p.row], p.col, p.vals))
}

/// A trace with cells put into it one after the other. What comes later covers what came before.
pub open spec fn laid_all(t: Seq<Seq<int>>, ps: Seq<Patch>) -> Seq<Seq<int>>
    decreases ps.len(),
{
    if ps.len() == 0 {
        t
    } else {
        laid(laid_all(t, ps.drop_last()), ps.last())
    }
}

/// A row with lists of cells put into it one after the other.
pub open spec fn overlaid_all(row: Seq<int>, held: Seq<(int, Seq<int>)>) -> Seq<int>
    decreases held.len(),
{
    if held.len() == 0 {
        row
    } else {
        overlaid(overlaid_all(row, held.drop_last()), held.last().0, held.last().1)
    }
}

/// A trace all of whose rows hold the same cells.
pub open spec fn with_held(t: Seq<Seq<int>>, held: Seq<(int, Seq<int>)>) -> Seq<Seq<int>> {
    Seq::new(t.len(), |r: int| overlaid_all(t[r], held))
}

/// `h` rows of `w` zeros.
pub open spec fn blank(h: int, w: int) -> Seq<Seq<int>> {
    Seq::new(h as nat, |r: int| super::cells::zeros(w))
}

/// A trace of `h` rows and `w` columns.
pub open spec fn sized(t: Seq<Seq<int>>, h: int, w: int) -> bool {
    &&& t.len() == h
    &&& forall|r: int| 0 <= r < h ==> (#[trigger] t[r]).len() == w
}

pub proof fn lemma_laid_take(t: Seq<Seq<int>>, ps: Seq<Patch>, n: int)
    requires
        0 <= n < ps.len(),
    ensures
        laid_all(t, ps.take(n + 1)) == laid(laid_all(t, ps.take(n)), ps[n]),
{
    assert(ps.take(n + 1).drop_last() =~= ps.take(n));
}

pub proof fn lemma_laid_concat(t: Seq<Seq<int>>, a: Seq<Patch>, b: Seq<Patch>)
    ensures
        laid_all(t, a + b) == laid_all(laid_all(t, a), b),
    decreases b.len(),
{
    if b.len() == 0 {
        assert(a + b =~= a);
    } else {
        assert((a + b).drop_last() =~= a + b.drop_last());
        lemma_laid_concat(t, a, b.drop_last());
    }
}

/// A blank trace.
pub fn blank_rows(h: usize, w: usize) -> (t: Trace)
    ensures
        cells(t@) == blank(h as int, w as int),
        sized(cells(t@), h as int, w as int),
{
    let mut t: Trace = Vec::new();
    for i in 0..h
        invariant
            t.len() == i,
            forall|r: int|
                0 <= r < i ==> ints((#[trigger] t@[r])@) == super::cells::zeros(w as int),
    {
        t.push(super::cells::zero_cells(w));
    }
    assert(cells(t@) =~= blank(h as int, w as int));
    t
}

/// Puts cells into a row.
pub fn lay(t: &mut Trace, row: usize, col: usize, vals: &Vec<u64>)
    requires
        row < old(t).len(),
        col + vals.len() <= cells(old(t)@)[row as int].len(),
    ensures
        cells(final(t)@) == laid(
            cells(old(t)@),
            (Patch { row: row as int, col: col as int, vals: ints(vals@) }),
        ),
        final(t).len() == old(t).len(),
        forall|h: int, w: int| #[trigger]
            sized(cells(old(t)@), h, w) ==> sized(cells(final(t)@), h, w),
{
    let ghost before = t@;
    let mut cells_row: Vec<u64> = crate::aggregate::window::copy_row(&t[row]);
    let ghost first = cells_row@;
    let n: usize = vals.len();
    for i in 0..n
        invariant
            n == vals.len(),
            cells_row.len() == first.len(),
            col + n <= first.len(),
            forall|c: int|
                0 <= c < first.len() ==> #[trigger] cells_row@[c] == (if col <= c < col + i {
                    vals@[c - col]
                } else {
                    first[c]
                }),
    {
        cells_row.set(col + i, vals[i]);
    }
    t.set(row, cells_row);
    proof {
        let p = Patch { row: row as int, col: col as int, vals: ints(vals@) };
        assert(ints(cells_row@) =~= overlaid(ints(first), col as int, ints(vals@)));
        assert(cells(t@) =~= laid(cells(before), p));
    }
}

/// Puts the same cells into all rows.
pub fn hold(t: &mut Trace, col: usize, vals: &Vec<u64>, w: usize)
    requires
        sized(cells(old(t)@), old(t).len() as int, w as int),
        col + vals.len() <= w,
    ensures
        cells(final(t)@) == with_held(cells(old(t)@), seq![(col as int, ints(vals@))]),
        sized(cells(final(t)@), old(t).len() as int, w as int),
        final(t).len() == old(t).len(),
{
    let h: usize = t.len();
    let ghost before = cells(t@);
    let ghost held = seq![(col as int, ints(vals@))];
    for r in 0..h
        invariant
            h == t.len(),
            before.len() == h,
            col + vals.len() <= w,
            held == seq![(col as int, ints(vals@))],
            sized(before, h as int, w as int),
            sized(cells(t@), h as int, w as int),
            forall|i: int|
                0 <= i < h ==> #[trigger] cells(t@)[i] == (if i < r {
                    overlaid(before[i], col as int, ints(vals@))
                } else {
                    before[i]
                }),
    {
        assert(cells(t@)[r as int].len() == w);
        lay(t, r, col, vals);
    }
    proof {
        assert forall|i: int| 0 <= i < h implies #[trigger] cells(t@)[i] == with_held(
            before,
            held,
        )[i] by {
            assert(held.drop_last() =~= Seq::empty());
            assert(overlaid_all(before[i], held.drop_last()) == before[i]);
        }
        assert(cells(t@) =~= with_held(before, held));
    }
}

pub proof fn lemma_held_concat(
    t: Seq<Seq<int>>,
    a: Seq<(int, Seq<int>)>,
    b: Seq<(int, Seq<int>)>,
)
    ensures
        with_held(with_held(t, a), b) == with_held(t, a + b),
{
    assert forall|r: int| 0 <= r < t.len() implies #[trigger] with_held(with_held(t, a), b)[r]
        == with_held(t, a + b)[r] by {
        lemma_overlaid_concat(t[r], a, b);
    }
    assert(with_held(with_held(t, a), b) =~= with_held(t, a + b));
}

proof fn lemma_overlaid_concat(
    row: Seq<int>,
    a: Seq<(int, Seq<int>)>,
    b: Seq<(int, Seq<int>)>,
)
    ensures
        overlaid_all(overlaid_all(row, a), b) == overlaid_all(row, a + b),
    decreases b.len(),
{
    if b.len() == 0 {
        assert(a + b =~= a);
    } else {
        assert((a + b).drop_last() =~= a + b.drop_last());
        lemma_overlaid_concat(row, a, b.drop_last());
    }
}

/// Where the parts of a query stand in a trace, as its geometry gives it: the rows of a query, the
/// columns of its parts, and the blocks of its Merkle paths. The terms of the opened trace row start at
/// `trm_trace`, those of the quotient chunks at `trm_quot`.
#[derive(Debug)]
pub struct SegmentLayout {
    pub width: usize,
    pub m_period: usize,
    pub lg: usize,
    pub rounds: usize,
    pub is_zk: bool,
    pub full_cap: bool,
    pub sb_x: usize,
    pub idx_rem: usize,
    pub m_sib: usize,
    pub m_bit: usize,
    pub ov_c: usize,
    pub ov_random: usize,
    pub qc: usize,
    pub cg: usize,
    pub cap_c: usize,
    pub committed_w: usize,
    pub random_w: usize,
    pub nqc: usize,
    pub chunk_w: usize,
    pub trm_trace: usize,
    pub trm_quot: usize,
    pub random_leaf_blocks: usize,
    pub m_input_leaf: usize,
    pub leaf_blocks: usize,
    pub m_quot_leaf: usize,
    pub quot_leaf_blocks: usize,
    pub cm_leaf: Vec<usize>,
    pub cm_leaf_blocks: usize,
}

/// The first block of the random leaf.
pub const M_INPUT_LEAF: usize = 1;

/// The opened values of `n` terms from term `from` on.
pub open spec fn opened_pxs(o: TileOpenings, from: int, n: int) -> Seq<int> {
    Seq::new(n as nat, |i: int| o.query.terms@[from + i].px as int)
}

/// The trace leaf: the opened row, and its salt.
pub open spec fn trace_leaf(l: SegmentLayout, o: TileOpenings, h: Option<&HidingWitness>) -> Seq<int> {
    opened_pxs(o, l.trm_trace as int, l.committed_w as int) + (match h {
        Some(w) => ints(w.trace_salt@),
        None => Seq::empty(),
    })
}

/// The random leaf: the opened row, and its salt.
pub open spec fn random_leaf(l: SegmentLayout, o: TileOpenings, w: HidingWitness) -> Seq<int> {
    opened_pxs(o, 0, l.random_w as int) + ints(w.random_salt@)
}

/// The quotient leaf: the rows of the first `n` chunks, each with its salt.
pub open spec fn quot_leaf(
    l: SegmentLayout,
    o: TileOpenings,
    h: Option<&HidingWitness>,
    n: nat,
) -> Seq<int>
    decreases n,
{
    if n == 0 {
        Seq::empty()
    } else {
        quot_leaf(l, o, h, (n - 1) as nat) + opened_pxs(
            o,
            l.trm_quot + (n - 1) * l.chunk_w,
            l.chunk_w as int,
        ) + (match h {
            Some(w) => ints(w.quot_salts@[n - 1]@),
            None => Seq::empty(),
        })
    }
}

/// The leaf of fold group `r`: the group, and its salt.
pub open spec fn commit_leaf(o: TileOpenings, h: Option<&HidingWitness>, r: int) -> Seq<int> {
    ints(o.commits@[r].group@) + (match h {
        Some(w) => ints(w.commit_salts@[r]@),
        None => Seq::empty(),
    })
}

/// The blocks that a leaf of `n` elements takes.
pub open spec fn blocks_z(n: int) -> int {
    (n + 3) / 4
}

/// Row `k` of the blocks of a leaf hash.
pub open spec fn leaf_row(pre: Seq<int>, k: int) -> Seq<int> {
    perm_row(
        overwritten(row_state(pre, (k / BLOCK as int) as nat), pre, k / BLOCK as int),
        (k % BLOCK as int) as nat,
    )
}

/// The blocks of a leaf hash from block `start` on.
pub open spec fn leaf_patches(start: int, pre: Seq<int>) -> Seq<Patch> {
    Seq::new(
        (BLOCK * blocks_z(pre.len() as int)) as nat,
        |k: int| Patch { row: start * BLOCK + k, col: 0, vals: leaf_row(pre, k) },
    )
}

/// The cells that row `k / 3` of the blocks of a path gets: its permutation, the sibling, the bit.
pub open spec fn path_patch(
    l: SegmentLayout,
    start: int,
    leaf: Seq<int>,
    path: Seq<(Seq<int>, bool)>,
    k: int,
) -> Patch {
    let r = k / 3;
    let (sib, right) = path[r / BLOCK as int];
    let row = start * BLOCK + r;
    if k % 3 == 0 {
        Patch {
            row,
            col: 0,
            vals: perm_row(
                ordered_z(node_after(leaf, path, (r / BLOCK as int) as nat), sib, right),
                (r % BLOCK as int) as nat,
            ),
        }
    } else if k % 3 == 1 {
        Patch { row, col: l.m_sib as int, vals: sib }
    } else {
        Patch {
            row,
            col: l.m_bit as int,
            vals: seq![
                if right {
                    1int
                } else {
                    0int
                },
            ],
        }
    }
}

/// The blocks of a path from block `start` on.
pub open spec fn path_patches(
    l: SegmentLayout,
    start: int,
    leaf: Seq<int>,
    path: Seq<(Seq<int>, bool)>,
) -> Seq<Patch> {
    Seq::new(
        (3 * (BLOCK * path.len())) as nat,
        |k: int| path_patch(l, start, leaf, path, k),
    )
}

/// The blocks of a leaf and of its path, which starts `blocks` behind the leaf.
pub open spec fn opening_patches(
    l: SegmentLayout,
    start: int,
    blocks: int,
    pre: Seq<int>,
    path: Seq<(Seq<int>, bool)>,
) -> Seq<Patch> {
    leaf_patches(start, pre) + path_patches(l, start + blocks, row_hash(pre), path)
}

/// The rows of the folds. The last ones only show the running evaluation.
pub open spec fn fold_patches(l: SegmentLayout, o: TileOpenings) -> Seq<Patch> {
    let q = o.query;
    Seq::new(
        (l.rounds + 1) as nat,
        |r: int|
            Patch {
                row: r,
                col: 0,
                vals: if r < q.rounds.len() {
                    bare_chain_cells(q.ro@, q.rounds@, r)
                } else {
                    let e = running(q.ro@, q.rounds@, r as nat);
                    seq![e.0, e.1]
                },
            },
    )
}

/// The first row behind its fold: the head of the query, and its index element split.
pub open spec fn head_patches(l: SegmentLayout, o: TileOpenings, felt: int) -> Seq<Patch> {
    seq![
        Patch { row: 0, col: 9, vals: head_cells(o.query, l.lg as int) },
        Patch { row: 0, col: l.sb_x as int, vals: split_cells(felt) },
    ]
}

/// What is left of the index in every round.
pub open spec fn rem_patches(l: SegmentLayout, felt: int) -> Seq<Patch> {
    Seq::new(
        (l.rounds + 1) as nat,
        |r: int|
            Patch {
                row: r,
                col: l.idx_rem as int,
                vals: seq![shr_z(red(felt) % (pow2(l.lg as nat) as int), r as nat)],
            },
    )
}

/// The blocks of the first `n` fold groups.
pub open spec fn commit_patches(
    l: SegmentLayout,
    o: TileOpenings,
    h: Option<&HidingWitness>,
    n: nat,
) -> Seq<Patch>
    decreases n,
{
    if n == 0 {
        Seq::empty()
    } else {
        commit_patches(l, o, h, (n - 1) as nat) + opening_patches(
            l,
            l.cm_leaf@[n - 1] as int,
            l.cm_leaf_blocks as int,
            commit_leaf(o, h, n - 1),
            path_z(o.commits@[n - 1].path@),
        )
    }
}

/// The blocks of the random row, where the commitments hide.
pub open spec fn random_patches(l: SegmentLayout, o: TileOpenings, h: Option<&HidingWitness>) -> Seq<
    Patch,
> {
    match h {
        Some(w) => opening_patches(
            l,
            M_INPUT_LEAF as int,
            l.random_leaf_blocks as int,
            random_leaf(l, o, *w),
            path_z(w.random_path@),
        ),
        None => Seq::empty(),
    }
}

/// All cells of a query but those that every row holds.
pub open spec fn segment_patches(
    l: SegmentLayout,
    o: TileOpenings,
    felt: int,
    h: Option<&HidingWitness>,
) -> Seq<Patch> {
    fold_patches(l, o) + head_patches(l, o, felt) + rem_patches(l, felt) + random_patches(l, o, h)
        + opening_patches(
        l,
        l.m_input_leaf as int,
        l.leaf_blocks as int,
        trace_leaf(l, o, h),
        path_z(o.path@),
    ) + opening_patches(
        l,
        l.m_quot_leaf as int,
        l.quot_leaf_blocks as int,
        quot_leaf(l, o, h, l.nqc as nat),
        path_z(o.quot_path@),
    ) + commit_patches(l, o, h, o.commits@.len())
}

/// The fold groups, one behind the other.
pub open spec fn group_cells(o: TileOpenings) -> Seq<int> {
    Seq::new((4 * o.commits@.len()) as nat, |i: int| o.commits@[i / 4].group@[i % 4] as int)
}

/// The roots that the first `n` rounds lead to; a round without an opening has zeros.
pub open spec fn commit_roots(o: TileOpenings, h: Option<&HidingWitness>, n: nat) -> Seq<int>
    decreases n,
{
    if n == 0 {
        Seq::empty()
    } else {
        commit_roots(o, h, (n - 1) as nat) + (if n <= o.commits@.len() {
            root_of(row_hash(commit_leaf(o, h, n - 1)), path_z(o.commits@[n - 1].path@))
        } else {
            seq![0int, 0, 0, 0]
        })
    }
}

/// The roots that the paths lead to: of the trace row, of the quotient row, of the fold groups, and of
/// the random row where the commitments hide.
pub open spec fn root_cells(l: SegmentLayout, o: TileOpenings, h: Option<&HidingWitness>) -> Seq<int> {
    root_of(row_hash(trace_leaf(l, o, h)), path_z(o.path@)) + root_of(
        row_hash(quot_leaf(l, o, h, l.nqc as nat)),
        path_z(o.quot_path@),
    ) + commit_roots(o, h, l.rounds as nat) + (match h {
        Some(w) => root_of(row_hash(random_leaf(l, o, *w)), path_z(w.random_path@)),
        None => Seq::empty(),
    })
}

/// What every row of a query holds: the leaves, the fold groups, and the roots where the layout has
/// them.
pub open spec fn held_cells(l: SegmentLayout, o: TileOpenings, h: Option<&HidingWitness>) -> Seq<
    (int, Seq<int>),
> {
    seq![(l.ov_c as int, trace_leaf(l, o, h))] + (match h {
        Some(w) => seq![(l.ov_random as int, random_leaf(l, o, *w))],
        None => Seq::empty(),
    }) + seq![
        (l.qc as int, quot_leaf(l, o, h, l.nqc as nat)),
        (l.cg as int, group_cells(o)),
    ] + (if l.full_cap {
        seq![(l.cap_c as int, root_cells(l, o, h))]
    } else {
        Seq::empty()
    })
}

/// The rows of a query.
pub open spec fn segment_z(
    l: SegmentLayout,
    o: TileOpenings,
    felt: int,
    h: Option<&HidingWitness>,
) -> Seq<Seq<int>> {
    with_held(
        laid_all(blank(l.m_period as int, l.width as int), segment_patches(l, o, felt, h)),
        held_cells(l, o, h),
    )
}

/// A leaf of `n` elements and a path of `depth` levels are within the rows.
pub open spec fn blocks_fit(l: SegmentLayout, start: int, blocks: int, n: int, depth: int) -> bool {
    &&& n + 3 <= usize::MAX
    &&& (start + blocks_z(n)) * BLOCK <= l.m_period
    &&& (start + blocks + depth) * BLOCK <= l.m_period
}

impl SegmentLayout {
    /// The query is within the rows, and its columns within the width.
    pub open spec fn fits(self, o: TileOpenings, h: Option<&HidingWitness>) -> bool {
        let salt: int = if h is Some {
            4
        } else {
            0
        };
        let quot = self.nqc * (self.chunk_w + salt);
        &&& self.is_zk == (h is Some)
        &&& self.lg <= 32
        &&& query_ok(o.query, self.lg as int)
        &&& self.rounds < self.m_period
        &&& o.commits.len() <= self.rounds
        &&& o.commits.len() <= self.cm_leaf.len()
        &&& self.trm_trace + self.committed_w <= o.query.terms.len()
        &&& self.trm_quot + self.nqc * self.chunk_w <= o.query.terms.len()
        &&& 11 + 2 * self.lg + 9 * o.query.terms.len() <= self.width
        &&& self.sb_x + 96 <= self.width
        &&& self.idx_rem < self.width
        &&& self.m_sib + 4 <= self.width
        &&& self.m_bit < self.width
        &&& self.ov_c + self.committed_w + salt <= self.width
        &&& self.qc + quot <= self.width
        &&& self.cg + 4 * o.commits.len() <= self.width
        &&& self.full_cap ==> self.cap_c + 8 + 4 * self.rounds + salt <= self.width
        &&& blocks_fit(
            self,
            self.m_input_leaf as int,
            self.leaf_blocks as int,
            self.committed_w + salt,
            o.path.len() as int,
        )
        &&& blocks_fit(
            self,
            self.m_quot_leaf as int,
            self.quot_leaf_blocks as int,
            quot,
            o.quot_path.len() as int,
        )
        &&& forall|r: int|
            0 <= r < o.commits.len() ==> blocks_fit(
                self,
                #[trigger] self.cm_leaf@[r] as int,
                self.cm_leaf_blocks as int,
                4 + salt,
                o.commits@[r].path.len() as int,
            )
        &&& match h {
            Some(w) => {
                &&& self.random_w <= o.query.terms.len()
                &&& self.nqc <= w.quot_salts.len()
                &&& o.commits.len() <= w.commit_salts.len()
                &&& self.ov_random + self.random_w + 4 <= self.width
                &&& blocks_fit(
                    self,
                    M_INPUT_LEAF as int,
                    self.random_leaf_blocks as int,
                    self.random_w + 4,
                    w.random_path.len() as int,
                )
            },
            None => true,
        }
    }
}

/// A permutation row as cells.
fn row_of(s: [u64; 8]) -> (r: Vec<u64>)
    ensures
        ints(r@) == ints(s@),
        r.len() == 8,
{
    let r: Vec<u64> = vec![s[0], s[1], s[2], s[3], s[4], s[5], s[6], s[7]];
    assert(ints(r@) =~= ints(s@));
    r
}

/// Lays the blocks of a leaf hash, and gives the digest.
fn lay_leaf(t: &mut Trace, start: usize, pre: &Vec<u64>, h: usize, w: usize) -> (r: Digest)
    requires
        sized(cells(old(t)@), h as int, w as int),
        w >= 9,
        pre.len() + 3 <= usize::MAX,
        (start + blocks_z(pre.len() as int)) * BLOCK <= h,
    ensures
        ints(r@) == row_hash(ints(pre@)),
        cells(final(t)@) == laid_all(cells(old(t)@), leaf_patches(start as int, ints(pre@))),
        sized(cells(final(t)@), h as int, w as int),
{
    let len: usize = pre.len();
    let n: usize = (len + 3) / 4;
    let ghost z = ints(pre@);
    let ghost t0 = cells(t@);
    let ghost ps = leaf_patches(start as int, z);
    let mut s: [u64; 8] = [0; 8];
    proof {
        assert(ints(s@) =~= row_state(z, 0));
        assert(ps.take(0) =~= Seq::empty());
    }
    for b in 0..n
        invariant
            len == pre.len(),
            len + 3 <= usize::MAX,
            n == (len + 3) / 4,
            n == blocks_z(len as int),
            w >= 9,
            (start + n) * BLOCK <= h,
            z == ints(pre@),
            ps == leaf_patches(start as int, z),
            ints(s@) == row_state(z, b as nat),
            sized(cells(t@), h as int, w as int),
            cells(t@) == laid_all(t0, ps.take(BLOCK * b)),
    {
        let ghost before = s@;
        for i in 0..4
            invariant
                len == pre.len(),
                b < n,
                n == (len + 3) / 4,
                len + 3 <= usize::MAX,
                forall|j: int|
                    0 <= j < 8 ==> #[trigger] s@[j] == (if j < i && 4 * b + j < len {
                        pre@[4 * b + j]
                    } else {
                        before[j]
                    }),
        {
            if 4 * b + i < len {
                s[i] = pre[4 * b + i];
            }
        }
        assert(ints(s@) =~= overwritten(ints(before), z, b as int));
        let rows: Vec<[u64; 8]> = native_steps(s);
        for k in 0..BLOCK
            invariant
                b < n,
                n == blocks_z(z.len() as int),
                w >= 9,
                (start + n) * BLOCK <= h,
                ps == leaf_patches(start as int, z),
                rows.len() == BLOCK,
                ints(s@) == overwritten(row_state(z, b as nat), z, b as int),
                forall|j: int|
                    0 <= j < BLOCK ==> ints((#[trigger] rows@[j])@) == perm_row(
                        ints(s@),
                        j as nat,
                    ),
                sized(cells(t@), h as int, w as int),
                cells(t@) == laid_all(t0, ps.take(BLOCK * b + k)),
        {
            let ghost at = BLOCK * b + k;
            proof {
                assert(at / BLOCK as int == b && at % BLOCK as int == k) by {
                    vstd::arithmetic::div_mod::lemma_fundamental_div_mod_converse(
                        at,
                        BLOCK as int,
                        b as int,
                        k as int,
                    );
                }
                lemma_laid_take(t0, ps, at);
                assert(ps[at].vals == ints(rows@[k as int]@));
            }
            let cells_row: Vec<u64> = row_of(rows[k]);
            lay(t, (start + b) * BLOCK + k, 0, &cells_row);
        }
        s = native_permute(s);
    }
    assert(ps.take(BLOCK * n as int) =~= ps);
    first_half(s)
}

/// Lays the blocks of a path, and gives the node it leads to.
fn lay_path(
    t: &mut Trace,
    l: &SegmentLayout,
    start: usize,
    leaf: Digest,
    path: &Vec<(Digest, bool)>,
) -> (r: Digest)
    requires
        sized(cells(old(t)@), l.m_period as int, l.width as int),
        l.width >= 9,
        l.m_sib + 4 <= l.width,
        l.m_bit < l.width,
        (start + path.len()) * BLOCK <= l.m_period,
    ensures
        ints(r@) == root_of(ints(leaf@), path_z(path@)),
        cells(final(t)@) == laid_all(
            cells(old(t)@),
            path_patches(*l, start as int, ints(leaf@), path_z(path@)),
        ),
        sized(cells(final(t)@), l.m_period as int, l.width as int),
{
    let n: usize = path.len();
    let ghost z = path_z(path@);
    let ghost t0 = cells(t@);
    let ghost ps = path_patches(*l, start as int, ints(leaf@), z);
    let mut node: Digest = leaf;
    assert(ps.take(0) =~= Seq::empty());
    for d in 0..n
        invariant
            n == path.len(),
            z == path_z(path@),
            l.width >= 9,
            l.m_sib + 4 <= l.width,
            l.m_bit < l.width,
            (start + n) * BLOCK <= l.m_period,
            ps == path_patches(*l, start as int, ints(leaf@), z),
            ints(node@) == node_after(ints(leaf@), z, d as nat),
            sized(cells(t@), l.m_period as int, l.width as int),
            cells(t@) == laid_all(t0, ps.take(3 * (BLOCK * d))),
    {
        let (sib, right) = path[d];
        let inp: [u64; 8] = ordered(node, sib, right);
        let rows: Vec<[u64; 8]> = native_steps(inp);
        let sibs: Vec<u64> = vec![sib[0], sib[1], sib[2], sib[3]];
        let bit: Vec<u64> = vec![
            if right {
                1
            } else {
                0
            },
        ];
        proof {
            assert(ints(sibs@) =~= ints(sib@));
            assert(ints(bit@) =~= seq![
                if right {
                    1int
                } else {
                    0int
                },
            ]);
        }
        for k in 0..BLOCK
            invariant
                d < n,
                n == z.len(),
                z[d as int] == (ints(sib@), right),
                l.width >= 9,
                l.m_sib + 4 <= l.width,
                l.m_bit < l.width,
                (start + n) * BLOCK <= l.m_period,
                ps == path_patches(*l, start as int, ints(leaf@), z),
                rows.len() == BLOCK,
                ints(inp@) == ordered_z(
                    node_after(ints(leaf@), z, d as nat),
                    ints(sib@),
                    right,
                ),
                forall|j: int|
                    0 <= j < BLOCK ==> ints((#[trigger] rows@[j])@) == perm_row(
                        ints(inp@),
                        j as nat,
                    ),
                sibs.len() == 4,
                ints(sibs@) == ints(sib@),
                bit.len() == 1,
                ints(bit@) == seq![
                    if right {
                        1int
                    } else {
                        0int
                    },
                ],
                sized(cells(t@), l.m_period as int, l.width as int),
                cells(t@) == laid_all(t0, ps.take(3 * (BLOCK * d + k))),
        {
            let ghost r = BLOCK * d + k;
            proof {
                assert(r / BLOCK as int == d && r % BLOCK as int == k) by {
                    vstd::arithmetic::div_mod::lemma_fundamental_div_mod_converse(
                        r,
                        BLOCK as int,
                        d as int,
                        k as int,
                    );
                }
                lemma_laid_take(t0, ps, 3 * r);
                lemma_laid_take(t0, ps, 3 * r + 1);
                lemma_laid_take(t0, ps, 3 * r + 2);
                assert((3 * r) / 3 == r && (3 * r + 1) / 3 == r && (3 * r + 2) / 3 == r);
                assert((3 * r) % 3 == 0 && (3 * r + 1) % 3 == 1 && (3 * r + 2) % 3 == 2);
                assert(ps[3 * r].vals == ints(rows@[k as int]@));
            }
            let at: usize = (start + d) * BLOCK + k;
            let cells_row: Vec<u64> = row_of(rows[k]);
            lay(t, at, 0, &cells_row);
            assert(cells(t@)[at as int].len() == l.width);
            lay(t, at, l.m_sib, &sibs);
            assert(cells(t@)[at as int].len() == l.width);
            lay(t, at, l.m_bit, &bit);
        }
        node = first_half(native_permute(inp));
    }
    assert(ps.take(3 * (BLOCK * n as int)) =~= ps);
    node
}

/// Lays the blocks of a leaf and of its path, and gives the root they lead to.
fn lay_opening(
    t: &mut Trace,
    l: &SegmentLayout,
    start: usize,
    blocks: usize,
    pre: &Vec<u64>,
    path: &Vec<(Digest, bool)>,
) -> (r: Digest)
    requires
        sized(cells(old(t)@), l.m_period as int, l.width as int),
        l.width >= 9,
        l.m_sib + 4 <= l.width,
        l.m_bit < l.width,
        blocks_fit(*l, start as int, blocks as int, pre.len() as int, path.len() as int),
    ensures
        ints(r@) == root_of(row_hash(ints(pre@)), path_z(path@)),
        cells(final(t)@) == laid_all(
            cells(old(t)@),
            opening_patches(*l, start as int, blocks as int, ints(pre@), path_z(path@)),
        ),
        sized(cells(final(t)@), l.m_period as int, l.width as int),
{
    let ghost t0 = cells(t@);
    let leaf: Digest = lay_leaf(t, start, pre, l.m_period, l.width);
    let r: Digest = lay_path(t, l, start + blocks, leaf, path);
    proof {
        lemma_laid_concat(
            t0,
            leaf_patches(start as int, ints(pre@)),
            path_patches(*l, start + blocks, row_hash(ints(pre@)), path_z(path@)),
        );
    }
    r
}

/// The opened values of `n` terms from term `from` on.
fn pxs(o: &TileOpenings, from: usize, n: usize) -> (r: Vec<u64>)
    requires
        from + n <= o.query.terms.len(),
    ensures
        ints(r@) == opened_pxs(*o, from as int, n as int),
        r.len() == n,
{
    let mut r: Vec<u64> = Vec::new();
    for i in 0..n
        invariant
            from + n <= o.query.terms.len(),
            r.len() == i,
            forall|j: int| 0 <= j < i ==> #[trigger] r@[j] == o.query.terms@[from + j].px,
    {
        r.push(o.query.terms[from + i].px);
    }
    assert(ints(r@) =~= opened_pxs(*o, from as int, n as int));
    r
}

/// Appends a salt.
fn put_salt(r: &mut Vec<u64>, salt: [u64; 4])
    ensures
        ints(final(r)@) == ints(old(r)@) + ints(salt@),
        final(r).len() == old(r).len() + 4,
{
    r.push(salt[0]);
    r.push(salt[1]);
    r.push(salt[2]);
    r.push(salt[3]);
    assert(ints(r@) =~= ints(old(r)@) + ints(salt@));
}

fn trace_preimage(l: &SegmentLayout, o: &TileOpenings, h: Option<&HidingWitness>) -> (r: Vec<u64>)
    requires
        l.fits(*o, h),
    ensures
        ints(r@) == trace_leaf(*l, *o, h),
        r.len() == l.committed_w + (if h is Some {
            4int
        } else {
            0
        }),
{
    let mut r: Vec<u64> = pxs(o, l.trm_trace, l.committed_w);
    match h {
        Some(w) => {
            put_salt(&mut r, w.trace_salt);
        },
        None => {},
    }
    assert(ints(r@) =~= trace_leaf(*l, *o, h));
    r
}

fn random_preimage(l: &SegmentLayout, o: &TileOpenings, w: &HidingWitness) -> (r: Vec<u64>)
    requires
        l.random_w <= o.query.terms.len(),
    ensures
        ints(r@) == random_leaf(*l, *o, *w),
        r.len() == l.random_w + 4,
{
    let mut r: Vec<u64> = pxs(o, 0, l.random_w);
    put_salt(&mut r, w.random_salt);
    r
}

fn quot_preimage(l: &SegmentLayout, o: &TileOpenings, h: Option<&HidingWitness>) -> (r: Vec<u64>)
    requires
        l.fits(*o, h),
    ensures
        ints(r@) == quot_leaf(*l, *o, h, l.nqc as nat),
        r.len() == l.nqc * (l.chunk_w + (if h is Some {
            4int
        } else {
            0
        })),
{
    let ghost salt: int = if h is Some {
        4
    } else {
        0
    };
    let n: usize = l.nqc;
    let mut r: Vec<u64> = Vec::new();
    let mut from: usize = l.trm_quot;
    proof {
        assert(ints(r@) =~= Seq::<int>::empty());
        assert(0 * (l.chunk_w + salt) == 0 && 0 * l.chunk_w == 0) by (nonlinear_arith);
    }
    for i in 0..n
        invariant
            n == l.nqc,
            l.fits(*o, h),
            salt == (if h is Some {
                4int
            } else {
                0
            }),
            from == l.trm_quot + i * l.chunk_w,
            ints(r@) == quot_leaf(*l, *o, h, i as nat),
            r.len() == i * (l.chunk_w + salt),
    {
        proof {
            assert((i + 1) * l.chunk_w <= l.nqc * l.chunk_w) by (nonlinear_arith)
                requires
                    i + 1 <= l.nqc,
            ;
            assert((i + 1) * l.chunk_w == i * l.chunk_w + l.chunk_w) by (nonlinear_arith);
            assert((i + 1) * (l.chunk_w + salt) == i * (l.chunk_w + salt) + l.chunk_w + salt)
                by (nonlinear_arith);
        }
        let row: Vec<u64> = pxs(o, from, l.chunk_w);
        super::cells::extend(&mut r, &row);
        proof {
            assert(ints(r@).len() == r.len());
        }
        match h {
            Some(w) => {
                put_salt(&mut r, w.quot_salts[i]);
            },
            None => {
                assert(ints(r@) + Seq::<int>::empty() =~= ints(r@));
            },
        }
        assert(ints(r@) == quot_leaf(*l, *o, h, (i + 1) as nat));
        from = from + l.chunk_w;
    }
    r
}

fn commit_preimage(o: &TileOpenings, h: Option<&HidingWitness>, k: usize) -> (r: Vec<u64>)
    requires
        k < o.commits.len(),
        h is Some ==> k < h->0.commit_salts.len(),
    ensures
        ints(r@) == commit_leaf(*o, h, k as int),
        r.len() == 4 + (if h is Some {
            4int
        } else {
            0
        }),
{
    let mut r: Vec<u64> = Vec::new();
    put_salt(&mut r, o.commits[k].group);
    match h {
        Some(w) => {
            put_salt(&mut r, w.commit_salts[k]);
        },
        None => {},
    }
    assert(ints(r@) =~= commit_leaf(*o, h, k as int));
    r
}

/// Lays the rows of the folds.
fn lay_folds(t: &mut Trace, l: &SegmentLayout, o: &TileOpenings)
    requires
        sized(cells(old(t)@), l.m_period as int, l.width as int),
        l.width >= 9,
        l.rounds < l.m_period,
        query_ok(o.query, l.lg as int),
    ensures
        cells(final(t)@) == laid_all(cells(old(t)@), fold_patches(*l, *o)),
        sized(cells(final(t)@), l.m_period as int, l.width as int),
{
    let n: usize = l.rounds + 1;
    let ghost t0 = cells(t@);
    let ghost ps = fold_patches(*l, *o);
    let rows: Vec<Vec<u64>> = bare_chain_rows(o.query.ro, &o.query.rounds, n);
    assert(ps.take(0) =~= Seq::empty());
    for r in 0..n
        invariant
            n == l.rounds + 1,
            n <= l.m_period,
            l.width >= 9,
            rows.len() == n,
            forall|i: int|
                0 <= i < n ==> ints((#[trigger] rows@[i])@) == bare_chain_cells(
                    o.query.ro@,
                    o.query.rounds@,
                    i,
                ),
            ps == fold_patches(*l, *o),
            sized(cells(t@), l.m_period as int, l.width as int),
            cells(t@) == laid_all(t0, ps.take(r as int)),
    {
        proof {
            lemma_laid_take(t0, ps, r as int);
            assert(ints(rows@[r as int]@).len() == 9);
        }
        if r < o.query.rounds.len() {
            lay(t, r, 0, &rows[r]);
        } else {
            let shown: Vec<u64> = vec![rows[r][0], rows[r][1]];
            proof {
                let e = running(o.query.ro@, o.query.rounds@, r as nat);
                assert(ints(rows@[r as int]@)[0] == e.0 && ints(rows@[r as int]@)[1] == e.1);
                assert(ints(shown@) =~= seq![e.0, e.1]);
            }
            lay(t, r, 0, &shown);
        }
    }
    assert(ps.take(n as int) =~= ps);
}

/// Lays the first row behind its fold, and what is left of the index in every round.
fn lay_head(t: &mut Trace, l: &SegmentLayout, o: &TileOpenings, felt: u64)
    requires
        sized(cells(old(t)@), l.m_period as int, l.width as int),
        l.lg <= 32,
        l.rounds < l.m_period,
        query_ok(o.query, l.lg as int),
        11 + 2 * l.lg + 9 * o.query.terms.len() <= l.width,
        l.sb_x + 96 <= l.width,
        l.idx_rem < l.width,
    ensures
        cells(final(t)@) == laid_all(
            cells(old(t)@),
            head_patches(*l, *o, felt as int) + rem_patches(*l, felt as int),
        ),
        sized(cells(final(t)@), l.m_period as int, l.width as int),
{
    let ghost t0 = cells(t@);
    let ghost hs = head_patches(*l, *o, felt as int);
    let head: Vec<u64> = head_row(&o.query, l.lg);
    let split: Vec<u64> = split_row(felt);
    proof {
        super::query_tile::lemma_terms_len(
            o.query.terms@,
            super::cells::point_z(o.query.index as int, l.lg as int),
            o.query.alpha@,
            o.query.terms@.len(),
        );
        assert(ints(head@).len() == 2 + 2 * l.lg + 9 * o.query.terms.len());
        assert(ints(split@).len() == 96);
        assert(hs.take(0) =~= Seq::empty());
        lemma_laid_take(t0, hs, 0);
        lemma_laid_take(t0, hs, 1);
        assert(hs.take(2) =~= hs);
    }
    lay(t, 0, 9, &head);
    lay(t, 0, l.sb_x, &split);
    let ghost t1 = cells(t@);
    let ghost ps = rem_patches(*l, felt as int);
    let n: usize = l.rounds + 1;
    proof {
        vstd::arithmetic::power2::lemma2_to64();
        vstd::arithmetic::power2::lemma_pow2_pos(l.lg as nat);
        if l.lg < 32 {
            vstd::arithmetic::power2::lemma_pow2_strictly_increases(l.lg as nat, 32);
        }
        assert(ps.take(0) =~= Seq::empty());
    }
    let mut rem: u64 = (felt % P) % crate::bits::pow2_u64(l.lg);
    for r in 0..n
        invariant
            n == l.rounds + 1,
            n <= l.m_period,
            l.idx_rem < l.width,
            rem == shr_z(red(felt as int) % (pow2(l.lg as nat) as int), r as nat),
            ps == rem_patches(*l, felt as int),
            sized(cells(t@), l.m_period as int, l.width as int),
            cells(t@) == laid_all(t1, ps.take(r as int)),
    {
        let v: Vec<u64> = vec![rem];
        proof {
            lemma_laid_take(t1, ps, r as int);
            assert(ints(v@) =~= seq![rem as int]);
            assert(cells(t@)[r as int].len() == l.width);
        }
        lay(t, r, l.idx_rem, &v);
        rem = rem / 2;
    }
    proof {
        assert(ps.take(n as int) =~= ps);
        lemma_laid_concat(t0, hs, ps);
    }
}

fn put_digest(r: &mut Vec<u64>, d: Digest)
    ensures
        ints(final(r)@) == ints(old(r)@) + ints(d@),
        final(r).len() == old(r).len() + 4,
{
    put_salt(r, d)
}

/// Lays the blocks of the fold groups, and gives the roots they lead to for all rounds.
fn lay_commits(t: &mut Trace, l: &SegmentLayout, o: &TileOpenings, h: Option<&HidingWitness>) -> (r:
    Vec<u64>)
    requires
        sized(cells(old(t)@), l.m_period as int, l.width as int),
        l.fits(*o, h),
    ensures
        ints(r@) == commit_roots(*o, h, l.rounds as nat),
        r.len() == 4 * l.rounds,
        cells(final(t)@) == laid_all(
            cells(old(t)@),
            commit_patches(*l, *o, h, o.commits@.len()),
        ),
        sized(cells(final(t)@), l.m_period as int, l.width as int),
{
    let ghost t0 = cells(t@);
    let n: usize = o.commits.len();
    let mut r: Vec<u64> = Vec::new();
    assert(ints(r@) =~= Seq::<int>::empty());
    for k in 0..n
        invariant
            n == o.commits.len(),
            l.fits(*o, h),
            sized(cells(t@), l.m_period as int, l.width as int),
            cells(t@) == laid_all(t0, commit_patches(*l, *o, h, k as nat)),
            ints(r@) == commit_roots(*o, h, k as nat),
            r.len() == 4 * k,
    {
        let pre: Vec<u64> = commit_preimage(o, h, k);
        assert(blocks_fit(
            *l,
            l.cm_leaf@[k as int] as int,
            l.cm_leaf_blocks as int,
            pre.len() as int,
            o.commits@[k as int].path.len() as int,
        ));
        let d: Digest = lay_opening(
            t,
            l,
            l.cm_leaf[k],
            l.cm_leaf_blocks,
            &pre,
            &o.commits[k].path,
        );
        proof {
            lemma_laid_concat(
                t0,
                commit_patches(*l, *o, h, k as nat),
                opening_patches(
                    *l,
                    l.cm_leaf@[k as int] as int,
                    l.cm_leaf_blocks as int,
                    commit_leaf(*o, h, k as int),
                    path_z(o.commits@[k as int].path@),
                ),
            );
        }
        put_digest(&mut r, d);
        assert(ints(r@) == commit_roots(*o, h, (k + 1) as nat));
    }
    let zero: Digest = [0; 4];
    assert(ints(zero@) =~= seq![0int, 0, 0, 0]);
    for k in n..l.rounds
        invariant
            n == o.commits.len(),
            n <= l.rounds,
            ints(zero@) == seq![0int, 0, 0, 0],
            ints(r@) == commit_roots(*o, h, k as nat),
            r.len() == 4 * k,
    {
        put_digest(&mut r, zero);
        assert(ints(r@) == commit_roots(*o, h, (k + 1) as nat));
    }
    r
}

fn groups_of(o: &TileOpenings) -> (r: Vec<u64>)
    ensures
        ints(r@) == group_cells(*o),
        r.len() == 4 * o.commits.len(),
{
    let n: usize = o.commits.len();
    let mut r: Vec<u64> = Vec::new();
    for k in 0..n
        invariant
            n == o.commits.len(),
            r.len() == 4 * k,
            forall|i: int|
                0 <= i < 4 * k ==> #[trigger] r@[i] == o.commits@[i / 4].group@[i % 4],
    {
        let g: [u64; 4] = o.commits[k].group;
        r.push(g[0]);
        r.push(g[1]);
        r.push(g[2]);
        r.push(g[3]);
    }
    assert(ints(r@) =~= group_cells(*o));
    r
}

/// What a query's blocks are made of: the leaves, and the roots that they lead to.
struct Leaves {
    trace: Vec<u64>,
    random: Vec<u64>,
    quot: Vec<u64>,
    roots: Vec<u64>,
}

impl Leaves {
    spec fn of(self, l: SegmentLayout, o: TileOpenings, h: Option<&HidingWitness>) -> bool {
        let salt: int = if h is Some {
            4
        } else {
            0
        };
        &&& ints(self.trace@) == trace_leaf(l, o, h)
        &&& self.trace.len() == l.committed_w + salt
        &&& h is Some ==> ints(self.random@) == random_leaf(l, o, *h->0) && self.random.len()
            == l.random_w + 4
        &&& ints(self.quot@) == quot_leaf(l, o, h, l.nqc as nat)
        &&& self.quot.len() == l.nqc * (l.chunk_w + salt)
        &&& ints(self.roots@) == root_cells(l, o, h)
        &&& self.roots.len() == 8 + 4 * l.rounds + salt
    }
}

/// Lays the blocks of the random row, where the commitments hide, and gives its leaf and its root.
fn lay_random(t: &mut Trace, l: &SegmentLayout, o: &TileOpenings, h: Option<&HidingWitness>) -> (r: (
    Vec<u64>,
    Vec<u64>,
))
    requires
        sized(cells(old(t)@), l.m_period as int, l.width as int),
        l.fits(*o, h),
    ensures
        h is Some ==> ints(r.0@) == random_leaf(*l, *o, *h->0) && r.0.len() == l.random_w + 4,
        r.1.len() == (if h is Some {
            4int
        } else {
            0
        }),
        ints(r.1@) == (match h {
            Some(w) => root_of(row_hash(random_leaf(*l, *o, *w)), path_z(w.random_path@)),
            None => Seq::empty(),
        }),
        cells(final(t)@) == laid_all(cells(old(t)@), random_patches(*l, *o, h)),
        sized(cells(final(t)@), l.m_period as int, l.width as int),
{
    let mut root: Vec<u64> = Vec::new();
    assert(ints(root@) =~= Seq::<int>::empty());
    match h {
        Some(w) => {
            let pre: Vec<u64> = random_preimage(l, o, w);
            let d: Digest = lay_opening(
                t,
                l,
                M_INPUT_LEAF,
                l.random_leaf_blocks,
                &pre,
                &w.random_path,
            );
            put_digest(&mut root, d);
            assert(ints(root@) =~= ints(d@));
            (pre, root)
        },
        None => (Vec::new(), root),
    }
}

/// Lays all cells of a query but those that every row holds.
fn lay_rows(
    t: &mut Trace,
    l: &SegmentLayout,
    o: &TileOpenings,
    felt: u64,
    h: Option<&HidingWitness>,
) -> (r: Leaves)
    requires
        sized(cells(old(t)@), l.m_period as int, l.width as int),
        l.fits(*o, h),
    ensures
        r.of(*l, *o, h),
        cells(final(t)@) == laid_all(cells(old(t)@), segment_patches(*l, *o, felt as int, h)),
        sized(cells(final(t)@), l.m_period as int, l.width as int),
{
    let ghost b = cells(t@);
    lay_folds(t, l, o);
    lay_head(t, l, o, felt);
    let (random, random_root) = lay_random(t, l, o, h);
    let trace: Vec<u64> = trace_preimage(l, o, h);
    let trace_root: Digest = lay_opening(t, l, l.m_input_leaf, l.leaf_blocks, &trace, &o.path);
    let quot: Vec<u64> = quot_preimage(l, o, h);
    let quot_root: Digest = lay_opening(
        t,
        l,
        l.m_quot_leaf,
        l.quot_leaf_blocks,
        &quot,
        &o.quot_path,
    );
    let commits: Vec<u64> = lay_commits(t, l, o, h);
    let mut roots: Vec<u64> = Vec::new();
    assert(ints(roots@) =~= Seq::<int>::empty());
    put_digest(&mut roots, trace_root);
    put_digest(&mut roots, quot_root);
    super::cells::extend(&mut roots, &commits);
    super::cells::extend(&mut roots, &random_root);
    proof {
        assert(ints(roots@) =~= root_cells(*l, *o, h));
        assert(ints(roots@).len() == roots.len());
        assert(ints(commits@).len() == commits.len());
        assert(ints(random_root@).len() == random_root.len());
        lemma_laid_segment(b, *l, *o, felt as int, h);
    }
    Leaves { trace, random, quot, roots }
}

/// The cells of a query are laid part by part.
proof fn lemma_laid_segment(
    b: Seq<Seq<int>>,
    l: SegmentLayout,
    o: TileOpenings,
    felt: int,
    h: Option<&HidingWitness>,
)
    ensures
        ({
            let t1 = laid_all(b, fold_patches(l, o));
            let t2 = laid_all(t1, head_patches(l, o, felt) + rem_patches(l, felt));
            let t3 = laid_all(t2, random_patches(l, o, h));
            let t4 = laid_all(
                t3,
                opening_patches(
                    l,
                    l.m_input_leaf as int,
                    l.leaf_blocks as int,
                    trace_leaf(l, o, h),
                    path_z(o.path@),
                ),
            );
            let t5 = laid_all(
                t4,
                opening_patches(
                    l,
                    l.m_quot_leaf as int,
                    l.quot_leaf_blocks as int,
                    quot_leaf(l, o, h, l.nqc as nat),
                    path_z(o.quot_path@),
                ),
            );
            laid_all(t5, commit_patches(l, o, h, o.commits@.len())) == laid_all(
                b,
                segment_patches(l, o, felt, h),
            )
        }),
{
    let p0 = fold_patches(l, o);
    let p1 = head_patches(l, o, felt);
    let p2 = rem_patches(l, felt);
    let p3 = random_patches(l, o, h);
    let p4 = opening_patches(
        l,
        l.m_input_leaf as int,
        l.leaf_blocks as int,
        trace_leaf(l, o, h),
        path_z(o.path@),
    );
    let p5 = opening_patches(
        l,
        l.m_quot_leaf as int,
        l.quot_leaf_blocks as int,
        quot_leaf(l, o, h, l.nqc as nat),
        path_z(o.quot_path@),
    );
    let p6 = commit_patches(l, o, h, o.commits@.len());
    lemma_laid_concat(b, p0, p1 + p2);
    assert(p0 + (p1 + p2) =~= p0 + p1 + p2);
    let q2 = p0 + p1 + p2;
    lemma_laid_concat(b, q2, p3);
    lemma_laid_concat(b, q2 + p3, p4);
    lemma_laid_concat(b, q2 + p3 + p4, p5);
    lemma_laid_concat(b, q2 + p3 + p4 + p5, p6);
}

/// Puts what every row of a query holds into its rows.
fn hold_rows(t: &mut Trace, l: &SegmentLayout, o: &TileOpenings, h: Option<&HidingWitness>, v: &Leaves)
    requires
        sized(cells(old(t)@), l.m_period as int, l.width as int),
        l.fits(*o, h),
        v.of(*l, *o, h),
    ensures
        cells(final(t)@) == with_held(cells(old(t)@), held_cells(*l, *o, h)),
        sized(cells(final(t)@), l.m_period as int, l.width as int),
{
    let ghost first = cells(t@);
    let ghost h0 = seq![(l.ov_c as int, trace_leaf(*l, *o, h))];
    let ghost h1: Seq<(int, Seq<int>)> = match h {
        Some(w) => seq![(l.ov_random as int, random_leaf(*l, *o, *w))],
        None => Seq::empty(),
    };
    let ghost h2 = seq![(l.qc as int, quot_leaf(*l, *o, h, l.nqc as nat))];
    let ghost h3 = seq![(l.cg as int, group_cells(*o))];
    let ghost h4: Seq<(int, Seq<int>)> = if l.full_cap {
        seq![(l.cap_c as int, root_cells(*l, *o, h))]
    } else {
        Seq::empty()
    };
    hold(t, l.ov_c, &v.trace, l.width);
    let ghost t0 = cells(t@);
    if h.is_some() {
        hold(t, l.ov_random, &v.random, l.width);
    }
    proof {
        if h is None {
            assert(with_held(t0, h1) =~= t0);
        }
        assert(cells(t@) == with_held(t0, h1));
        lemma_held_concat(first, h0, h1);
    }
    hold(t, l.qc, &v.quot, l.width);
    let groups: Vec<u64> = groups_of(o);
    hold(t, l.cg, &groups, l.width);
    let ghost t3 = cells(t@);
    if l.full_cap {
        hold(t, l.cap_c, &v.roots, l.width);
    }
    proof {
        if !l.full_cap {
            assert(with_held(t3, h4) =~= t3);
        }
        assert(cells(t@) == with_held(t3, h4));
        lemma_held_concat(first, h0 + h1, h2);
        lemma_held_concat(first, h0 + h1 + h2, h3);
        lemma_held_concat(first, h0 + h1 + h2 + h3, h4);
        assert(h0 + h1 + h2 + h3 + h4 =~= held_cells(*l, *o, h));
    }
}

/// The rows of a query.
pub fn fill_monolith_query_segment(
    l: &SegmentLayout,
    o: &TileOpenings,
    felt: u64,
    hiding: Option<&HidingWitness>,
) -> (t: Trace)
    requires
        l.fits(*o, hiding),
    ensures
        cells(t@) == segment_z(*l, *o, felt as int, hiding),
        sized(cells(t@), l.m_period as int, l.width as int),
{
    let mut t: Trace = blank_rows(l.m_period, l.width);
    let v: Leaves = lay_rows(&mut t, l, o, felt, hiding);
    hold_rows(&mut t, l, o, hiding, &v);
    t
}

} // verus!
