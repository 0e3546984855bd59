//! The aggregate trace: the windows of the inner proofs one below the other, with the chain that folds
//! their statements into one root.
use super::fault::LayoutFault;
use super::options::{
    checked_trace_felts_with_limit, over_limit, estimate_z, AggregationError,
};
use super::window::{copy_row, overlay};
use crate::expr::{cells, Trace};
use crate::field::ints;
use crate::merkle::{join, merge, merge_z, take4, Digest};
use crate::monolith::cells::{zero_cells, zeros};
use crate::monolith::geometry::{MonolithTracePart, MonolithTraceRowRange};
use crate::poseidon2::{native_steps, perm, perm_row, BLOCK};
use vstd::prelude::*;

verus! {

/// The part of a fold that all inner proofs must share.
#[derive(Debug)]
pub struct InnerShape {
    pub counts: Vec<u8>,
    pub binds: Vec<usize>,
    pub index_binds: Vec<(usize, usize)>,
    pub n_terms: usize,
    pub cap_height: usize,
}

impl InnerShape {
    pub open spec fn same(self, other: InnerShape) -> bool {
        &&& self.counts@ == other.counts@
        &&& self.binds@ == other.binds@
        &&& self.index_binds@ == other.index_binds@
        &&& self.n_terms == other.n_terms
        &&& self.cap_height == other.cap_height
    }

    /// Whether two inner proofs have the same shape.
    pub fn is_same(&self, other: &InnerShape) -> (r: bool)
        ensures
            r == self.same(*other),
    {
        if self.n_terms != other.n_terms || self.cap_height != other.cap_height {
            return false;
        }
        if self.counts.len() != other.counts.len() || self.binds.len() != other.binds.len()
            || self.index_binds.len() != other.index_binds.len() {
            return false;
        }
        let n: usize = self.counts.len();
        for i in 0..n
            invariant
                n == self.counts.len(),
                n == other.counts.len(),
                forall|j: int| 0 <= j < i ==> #[trigger] self.counts@[j] == other.counts@[j],
        {
            if self.counts[i] != other.counts[i] {
                return false;
            }
        }
        let n: usize = self.binds.len();
        for i in 0..n
            invariant
                n == self.binds.len(),
                n == other.binds.len(),
                forall|j: int| 0 <= j < i ==> #[trigger] self.binds@[j] == other.binds@[j],
        {
            if self.binds[i] != other.binds[i] {
                return false;
            }
        }
        let n: usize = self.index_binds.len();
        for i in 0..n
            invariant
                n == self.index_binds.len(),
                n == other.index_binds.len(),
                forall|j: int|
                    0 <= j < i ==> #[trigger] self.index_binds@[j] == other.index_binds@[j],
        {
            let (a, b) = self.index_binds[i];
            let (c, d) = other.index_binds[i];
            if a != c || b != d {
                return false;
            }
        }
        assert(self.counts@ =~= other.counts@);
        assert(self.binds@ =~= other.binds@);
        assert(self.index_binds@ =~= other.index_binds@);
        true
    }
}

/// Whether every shape is that of the first.
pub open spec fn all_same(shapes: Seq<InnerShape>) -> bool {
    forall|i: int| 0 <= i < shapes.len() ==> shapes[0].same(#[trigger] shapes[i])
}

pub fn shapes_agree(shapes: &Vec<InnerShape>) -> (r: bool)
    ensures
        r == all_same(shapes@),
{
    let n: usize = shapes.len();
    for i in 0..n
        invariant
            n == shapes.len(),
            forall|j: int| 0 <= j < i ==> shapes@[0].same(#[trigger] shapes@[j]),
    {
        if !shapes[0].is_same(&shapes[i]) {
            assert(!shapes@[0].same(shapes@[i as int]));
            return false;
        }
    }
    true
}

/// Where the parts of the aggregate trace stand: the widths of a window and of the trace, the rows of an
/// instance and of the trace, the block that the statement chain starts at, the columns of the root and
/// of the chain, and what the queries take.
#[derive(Clone, Copy, Debug)]
pub struct FoldLayout {
    pub fused_w: usize,
    pub fold_w: usize,
    pub inst_h: usize,
    pub height: usize,
    pub fold_block: usize,
    pub af_root: usize,
    pub af_p: usize,
    pub tr: usize,
    pub n_queries: usize,
    pub m_period: usize,
}

impl FoldLayout {
    /// The columns are within the trace, and the chain of `n` statement blocks and the root block is
    /// within an instance.
    pub open spec fn fits(self, n: int, k: int) -> bool {
        &&& self.fused_w <= self.fold_w
        &&& self.af_root + 4 <= self.fold_w
        &&& self.af_p + 8 <= self.fold_w
        &&& (self.fold_block + n + 1) * BLOCK <= self.inst_h
        &&& k * self.inst_h <= self.height
        &&& self.tr + self.n_queries * self.m_period <= usize::MAX
    }
}

/// Where the elements of a statement block come from: a public value, or zero.
pub type BlockSource = [Option<usize>; 4];

pub open spec fn source_z(s: Option<usize>, pvs: Seq<int>) -> int {
    match s {
        Some(at) => pvs[at as int],
        None => 0,
    }
}

/// The elements of a statement block.
pub open spec fn chunk_z(source: BlockSource, pvs: Seq<int>) -> Seq<int> {
    Seq::new(4, |l: int| source_z(source@[l], pvs))
}

/// The digest behind the first `b` blocks of a statement.
pub open spec fn statement_at(dom: int, sources: Seq<BlockSource>, pvs: Seq<int>, b: nat) -> Seq<int>
    decreases b,
{
    if b == 0 {
        seq![dom, 0, 0, 0]
    } else {
        merge_z(
            statement_at(dom, sources, pvs, (b - 1) as nat),
            chunk_z(sources[b - 1], pvs),
        )
    }
}

/// The digest of a statement.
pub open spec fn statement_z(dom: int, sources: Seq<BlockSource>, pvs: Seq<int>) -> Seq<int> {
    statement_at(dom, sources, pvs, sources.len())
}

/// The root before statement `i`.
pub open spec fn root_at(dom: int, sources: Seq<BlockSource>, pvs: Seq<Vec<u64>>, i: nat) -> Seq<int>
    decreases i,
{
    if i == 0 {
        seq![0int, 0, 0, 0]
    } else {
        merge_z(
            root_at(dom, sources, pvs, (i - 1) as nat),
            statement_z(dom, sources, ints(pvs[i - 1]@)),
        )
    }
}

/// The input of block `b` of the chain of an instance: the statement blocks, then the root block.
pub open spec fn chain_input(
    dom: int,
    sources: Seq<BlockSource>,
    pvs: Seq<Vec<u64>>,
    i: int,
    b: int,
) -> Seq<int> {
    let own = ints(pvs[i]@);
    if b < sources.len() {
        statement_at(dom, sources, own, b as nat) + chunk_z(sources[b], own)
    } else {
        root_at(dom, sources, pvs, i as nat) + statement_z(dom, sources, own)
    }
}

/// A row as integers, with a window over it.
pub open spec fn overlaid_z(row: Seq<int>, base: int, window: Seq<int>) -> Seq<int> {
    Seq::new(
        row.len(),
        |c: int|
            if base <= c < base + window.len() {
                window[c - base]
            } else {
                row[c]
            },
    )
}

/// The cells of windows.
pub open spec fn grids(windows: Seq<Trace>) -> Seq<Seq<Seq<int>>> {
    Seq::new(windows.len(), |i: int| cells(windows[i]@))
}

/// Row `r` of instance `i` of the aggregate trace: the window's row, the root before the instance, and
/// in the blocks of the chain a step of it.
pub open spec fn tiled_row(
    l: FoldLayout,
    windows: Seq<Seq<Seq<int>>>,
    dom: int,
    sources: Seq<BlockSource>,
    pvs: Seq<Vec<u64>>,
    i: int,
    r: int,
) -> Seq<int> {
    let b = r / 32 - l.fold_block;
    widened(
        l,
        windows[i][r],
        root_at(dom, sources, pvs, i as nat),
        if 0 <= b <= sources.len() {
            Some(perm_row(chain_input(dom, sources, pvs, i, b), (r % 32) as nat))
        } else {
            None
        },
    )
}

/// The offsets are within the public values, and there are `n` of them.
pub open spec fn parts_ok(n: int, sources: Seq<BlockSource>, pvs: Seq<Vec<u64>>) -> bool {
    &&& n == pvs.len()
    &&& forall|i: int, b: int, k: int|
        #![trigger pvs[i], sources[b]@[k]]
        0 <= i < pvs.len() && 0 <= b < sources.len() && 0 <= k < 4 ==> (sources[b]@[k] is Some
            ==> sources[b]@[k]->0 < pvs[i].len())
}

/// Whether every window is of an instance's size.
pub open spec fn windows_match(l: FoldLayout, windows: Seq<Seq<Seq<int>>>) -> bool {
    forall|i: int| 0 <= i < windows.len() ==> window_matches(l, #[trigger] windows[i])
}

pub open spec fn window_matches(l: FoldLayout, w: Seq<Seq<int>>) -> bool {
    &&& w.len() == l.inst_h
    &&& forall|r: int| 0 <= r < w.len() ==> (#[trigger] w[r]).len() == l.fused_w
}

fn window_is(l: &FoldLayout, w: &Trace) -> (r: bool)
    ensures
        r == window_matches(*l, cells(w@)),
{
    if w.len() != l.inst_h {
        return false;
    }
    let n: usize = w.len();
    for r in 0..n
        invariant
            n == w.len(),
            forall|k: int| 0 <= k < r ==> (#[trigger] w@[k]).len() == l.fused_w,
    {
        if w[r].len() != l.fused_w {
            assert(cells(w@)[r as int].len() != l.fused_w);
            return false;
        }
    }
    assert forall|r: int| 0 <= r < w.len() implies (#[trigger] cells(w@)[r]).len() == l.fused_w by {
        assert(w@[r].len() == l.fused_w);
    }
    true
}

fn windows_are(l: &FoldLayout, windows: &Vec<Trace>) -> (r: bool)
    ensures
        r == windows_match(*l, grids(windows@)),
{
    let n: usize = windows.len();
    for i in 0..n
        invariant
            n == windows.len(),
            forall|k: int| 0 <= k < i ==> window_matches(*l, #[trigger] grids(windows@)[k]),
    {
        assert(grids(windows@)[i as int] == cells(windows@[i as int]@));
        if !window_is(l, &windows[i]) {
            return false;
        }
    }
    true
}

/// The chain of an instance: the inputs of its blocks, and the digest of its statement.
pub fn statement_chain(dom: u64, sources: &Vec<BlockSource>, pvs: &Vec<u64>) -> (r: (
    Vec<[u64; 8]>,
    Digest,
))
    requires
        forall|b: int, k: int|
            #![trigger sources@[b]@[k]]
            0 <= b < sources.len() && 0 <= k < 4 ==> (sources@[b]@[k] is Some
                ==> sources@[b]@[k]->0 < pvs.len()),
    ensures
        r.0.len() == sources.len(),
        forall|b: int|
            0 <= b < sources.len() ==> ints((#[trigger] r.0@[b])@) == statement_at(
                dom as int,
                sources@,
                ints(pvs@),
                b as nat,
            ) + chunk_z(sources@[b], ints(pvs@)),
        ints(r.1@) == statement_z(dom as int, sources@, ints(pvs@)),
        forall|b: int, l: int|
            #![trigger sources@[b]@[l]]
            0 <= b < sources.len() && 0 <= l < 4 ==> r.0@[b]@[4 + l] == (match sources@[b]@[l] {
                Some(at) => pvs@[at as int],
                None => 0,
            }),
        forall|b: int|
            0 < b < sources.len() ==> ints((#[trigger] r.0@[b])@).subrange(0, 4) == perm(
                ints(r.0@[b - 1]@),
            ).subrange(0, 4),
        sources.len() > 0 ==> ints(r.0@[0]@).subrange(0, 4) == seq![dom as int, 0, 0, 0],
        sources.len() > 0 ==> ints(r.1@) == perm(ints(r.0@[sources.len() - 1]@)).subrange(0, 4),
        sources.len() == 0 ==> ints(r.1@) == seq![dom as int, 0, 0, 0],
{
    let n: usize = sources.len();
    let mut digest: Digest = [dom, 0, 0, 0];
    let mut inputs: Vec<[u64; 8]> = Vec::new();
    let ghost z = ints(pvs@);
    assert(ints(digest@) =~= statement_at(dom as int, sources@, z, 0));
    for b in 0..n
        invariant
            n == sources.len(),
            z == ints(pvs@),
            forall|b: int, k: int|
                #![trigger sources@[b]@[k]]
                0 <= b < sources.len() && 0 <= k < 4 ==> (sources@[b]@[k] is Some
                    ==> sources@[b]@[k]->0 < pvs.len()),
            ints(digest@) == statement_at(dom as int, sources@, z, b as nat),
            inputs.len() == b,
            forall|j: int|
                0 <= j < b ==> ints((#[trigger] inputs@[j])@) == statement_at(
                    dom as int,
                    sources@,
                    z,
                    j as nat,
                ) + chunk_z(sources@[j], z),
    {
        let src: BlockSource = sources[b];
        let mut chunk: Digest = [0; 4];
        for k in 0..4
            invariant
                src == sources@[b as int],
                b < sources.len(),
                z == ints(pvs@),
                forall|b: int, k: int|
                    #![trigger sources@[b]@[k]]
                    0 <= b < sources.len() && 0 <= k < 4 ==> (sources@[b]@[k] is Some
                        ==> sources@[b]@[k]->0 < pvs.len()),
                forall|j: int| 0 <= j < k ==> #[trigger] chunk@[j] == source_z(src@[j], z),
        {
            assert(sources@[b as int]@[k as int] is Some ==> sources@[b as int]@[k as int]->0
                < pvs.len());
            chunk[k] = match src[k] {
                Some(at) => pvs[at],
                None => 0,
            };
        }
        assert(ints(chunk@) =~= chunk_z(src, z));
        inputs.push(join(digest, chunk));
        digest = merge(digest, chunk);
    }
    proof {
        assert forall|b: int, l: int|
            #![trigger sources@[b]@[l]]
            0 <= b < sources.len() && 0 <= l < 4 implies inputs@[b]@[4 + l] == (
        match sources@[b]@[l] {
            Some(at) => pvs@[at as int],
            None => 0,
        }) by {
            super::laws::law_statement_lane(dom as int, sources@, z, b, l);
            assert(ints(inputs@[b]@)[4 + l] == inputs@[b]@[4 + l]);
            assert(sources@[b]@[l] is Some ==> z[sources@[b]@[l]->0 as int]
                == pvs@[sources@[b]@[l]->0 as int]);
        }
        assert forall|b: int| 0 < b < sources.len() implies ints(
            (#[trigger] inputs@[b])@,
        ).subrange(0, 4) == perm(ints(inputs@[b - 1]@)).subrange(0, 4) by {
            assert(ints(inputs@[b - 1]@).len() == 8);
            super::laws::law_statement_step(dom as int, sources@, z, b as nat);
            assert(ints(inputs@[b]@).subrange(0, 4) =~= statement_at(
                dom as int,
                sources@,
                z,
                b as nat,
            ));
        }
        if n > 0 {
            super::laws::law_statement_step(dom as int, sources@, z, n as nat);
            assert(ints(inputs@[0]@).subrange(0, 4) =~= seq![dom as int, 0, 0, 0]);
        }
    }
    (inputs, digest)
}

/// The aggregate trace and the root of its statements.
#[derive(Debug)]
pub struct AggregateTrace {
    pub rows: Trace,
    pub tx_root: Digest,
}

/// The aggregate trace is that of the windows: their rows one below the other, each with the root before
/// it and the chain of its statement, zeros behind the last, and the root behind all statements.
pub open spec fn aggregate_is(
    t: AggregateTrace,
    l: FoldLayout,
    windows: Seq<Seq<Seq<int>>>,
    sources: Seq<BlockSource>,
    pvs: Seq<Vec<u64>>,
    dom: int,
) -> bool {
    &&& ints(t.tx_root@) == root_at(dom, sources, pvs, pvs.len())
    &&& t.rows.len() == l.height
    &&& forall|i: int, r: int|
        #![trigger t.rows@[i * l.inst_h + r]]
        0 <= i < pvs.len() && 0 <= r < l.inst_h ==> ints(t.rows@[i * l.inst_h + r]@) == tiled_row(
            l,
            windows,
            dom,
            sources,
            pvs,
            i,
            r,
        )
    &&& forall|j: int|
        pvs.len() * l.inst_h <= j < l.height ==> ints((#[trigger] t.rows@[j])@) == zeros(
            l.fold_w as int,
        )
}

/// The root that the digests of the statements fold to.
pub open spec fn oracle_root(digests: Seq<Digest>, n: nat) -> Seq<int>
    decreases n,
{
    if n == 0 {
        seq![0int, 0, 0, 0]
    } else {
        merge_z(oracle_root(digests, (n - 1) as nat), ints(digests[n - 1]@))
    }
}

/// Folds the digests of statements into a root.
pub fn fold_digests(digests: &Vec<Digest>) -> (r: Digest)
    ensures
        ints(r@) == oracle_root(digests@, digests@.len()),
{
    let n: usize = digests.len();
    let mut root: Digest = [0; 4];
    assert(ints(root@) =~= oracle_root(digests@, 0));
    for i in 0..n
        invariant
            n == digests.len(),
            ints(root@) == oracle_root(digests@, i as nat),
    {
        root = merge(root, digests[i]);
    }
    root
}

/// What an aggregate is refused for; `matched` says whether every window is of an instance's size.
pub open spec fn aggregate_fail(
    shapes: Seq<InnerShape>,
    matched: bool,
    l: FoldLayout,
    sources: Seq<BlockSource>,
    pvs: Seq<Vec<u64>>,
    dom: int,
    digests: Seq<Digest>,
    limit: Option<usize>,
) -> Option<AggregationError> {
    let sized = match limit {
        None => None,
        Some(most) => match estimate_z(
            "production aggregate folded trace",
            l.height,
            l.fold_w,
            most,
        ) {
            Err(e) => Some(e),
            Ok(e) => if e.within_limit {
                None
            } else {
                Some(over_limit("production aggregate folded trace", e))
            },
        },
    };
    if shapes.len() == 0 {
        Some(AggregationError::Empty)
    } else if !all_same(shapes) {
        Some(AggregationError::MismatchedInnerShape)
    } else if l.fold_block * BLOCK < l.tr + l.n_queries * l.m_period {
        Some(AggregationError::TraceLayout(LayoutFault::FoldOverlap))
    } else if sized is Some {
        sized
    } else if !matched {
        Some(AggregationError::MismatchedInnerShape)
    } else if root_at(dom, sources, pvs, pvs.len()) != oracle_root(digests, digests.len()) {
        Some(AggregationError::TraceLayout(LayoutFault::TxRoot))
    } else {
        None
    }
}

/// A row of the aggregate trace from a window's row: widened, with the root and, in a block of the
/// chain, a step of it.
pub open spec fn widened(l: FoldLayout, own: Seq<int>, root: Seq<int>, step: Option<Seq<int>>) -> Seq<
    int,
> {
    let wide = Seq::new(
        l.fold_w as nat,
        |c: int|
            if c < l.fused_w {
                own[c]
            } else {
                0
            },
    );
    let rooted = overlaid_z(wide, l.af_root as int, root);
    match step {
        Some(s) => overlaid_z(rooted, l.af_p as int, s),
        None => rooted,
    }
}

/// Widens a row of a window.
pub fn widen_row(l: &FoldLayout, own: &Vec<u64>, root: &Digest, step: Option<[u64; 8]>) -> (r: Vec<
    u64,
>)
    requires
        own.len() == l.fused_w,
        l.fused_w <= l.fold_w,
        l.af_root + 4 <= l.fold_w,
        l.af_p + 8 <= l.fold_w,
    ensures
        ints(r@) == widened(
            *l,
            ints(own@),
            ints(root@),
            match step {
                Some(s) => Some(ints(s@)),
                None => None,
            },
        ),
{
    let mut row: Vec<u64> = copy_row(own);
    let pad: Vec<u64> = zero_cells(l.fold_w - l.fused_w);
    crate::monolith::cells::extend(&mut row, &pad);
    let ghost wide = Seq::new(
        l.fold_w as nat,
        |c: int|
            if c < l.fused_w {
                ints(own@)[c]
            } else {
                0
            },
    );
    assert(ints(row@) =~= wide);
    let root_cells: Vec<u64> = vec![root[0], root[1], root[2], root[3]];
    assert(ints(root_cells@) =~= ints(root@));
    overlay(&mut row, l.af_root, &root_cells);
    let ghost rooted = overlaid_z(wide, l.af_root as int, ints(root@));
    assert(ints(row@) =~= rooted);
    match step {
        Some(s) => {
            let cells: Vec<u64> = vec![s[0], s[1], s[2], s[3], s[4], s[5], s[6], s[7]];
            assert(ints(cells@) =~= ints(s@));
            overlay(&mut row, l.af_p, &cells);
            assert(ints(row@) =~= overlaid_z(rooted, l.af_p as int, ints(s@)));
        },
        None => {},
    }
    row
}

/// The rows of one instance.
fn tile_instance(
    l: &FoldLayout,
    windows: &Vec<Trace>,
    sources: &Vec<BlockSource>,
    pvs: &Vec<Vec<u64>>,
    dom: u64,
    i: usize,
    root: Digest,
    out: &mut Trace,
) -> (next: Digest)
    requires
        i < pvs.len(),
        l.fits(sources.len() as int, pvs.len() as int),
        parts_ok(windows.len() as int, sources@, pvs@),
        windows_match(*l, grids(windows@)),
        ints(root@) == root_at(dom as int, sources@, pvs@, i as nat),
        old(out).len() + l.inst_h <= l.height,
    ensures
        ints(next@) == root_at(dom as int, sources@, pvs@, (i + 1) as nat),
        final(out).len() == old(out).len() + l.inst_h,
        forall|j: int| 0 <= j < old(out).len() ==> #[trigger] final(out)@[j] == old(out)@[j],
        forall|r: int|
            0 <= r < l.inst_h ==> ints((#[trigger] final(out)@[old(out).len() + r])@) == tiled_row(
                *l,
                grids(windows@),
                dom as int,
                sources@,
                pvs@,
                i as int,
                r,
            ),
{
    let n: usize = sources.len();
    let w: &Trace = &windows[i];
    assert(grids(windows@)[i as int] == cells(w@));
    proof {
        assert forall|b: int, k: int|
            #![trigger sources@[b]@[k]]
            0 <= b < sources.len() && 0 <= k < 4 && sources@[b]@[k] is Some
            implies sources@[b]@[k]->0 < pvs@[i as int].len() by {
            assert(pvs@[i as int] == pvs@[i as int]);
        }
    }
    let (mut inputs, digest) = statement_chain(dom, sources, &pvs[i]);
    inputs.push(join(root, digest));
    let ghost z = ints(pvs@[i as int]@);
    assert forall|b: int| 0 <= b <= n implies ints((#[trigger] inputs@[b])@) == chain_input(
        dom as int,
        sources@,
        pvs@,
        i as int,
        b,
    ) by {}
    let ghost base = out@;
    let rows: usize = l.inst_h;
    let mut steps: Vec<[u64; 8]> = Vec::new();
    let mut block: usize = 0;
    for r in 0..rows
        invariant
            rows == l.inst_h,
            n == sources.len(),
            i < pvs.len(),
            i < windows.len(),
            w == &windows@[i as int],
            window_matches(*l, grids(windows@)[i as int]),
            grids(windows@)[i as int] == cells(w@),
            l.fits(sources.len() as int, pvs.len() as int),
            base.len() + rows <= l.height,
            out.len() == base.len() + r,
            ints(root@) == root_at(dom as int, sources@, pvs@, i as nat),
            inputs.len() == n + 1,
            forall|b: int|
                0 <= b <= n ==> ints((#[trigger] inputs@[b])@) == chain_input(
                    dom as int,
                    sources@,
                    pvs@,
                    i as int,
                    b,
                ),
            steps.len() == 0 || steps.len() == BLOCK,
            steps.len() > 0 ==> block <= n && forall|k: int|
                0 <= k < BLOCK ==> ints((#[trigger] steps@[k])@) == perm_row(
                    ints(inputs@[block as int]@),
                    k as nat,
                ),
            r % 32 != 0 && l.fold_block <= r / 32 && r / 32 - l.fold_block <= n ==> steps.len()
                == BLOCK && block == r / 32 - l.fold_block,
            forall|j: int| 0 <= j < base.len() ==> #[trigger] out@[j] == base[j],
            forall|k: int|
                0 <= k < r ==> ints((#[trigger] out@[base.len() + k])@) == tiled_row(
                    *l,
                    grids(windows@),
                    dom as int,
                    sources@,
                    pvs@,
                    i as int,
                    k,
                ),
    {
        assert(cells(w@)[r as int] == ints(w@[r as int]@));
        let mut step: Option<[u64; 8]> = None;
        if r / BLOCK >= l.fold_block && r / BLOCK - l.fold_block <= n {
            let b: usize = r / BLOCK - l.fold_block;
            if r % BLOCK == 0 {
                steps = native_steps(inputs[b]);
                block = b;
            }
            assert(block == b);
            step = Some(steps[r % BLOCK]);
        }
        let row: Vec<u64> = widen_row(l, &w[r], &root, step);
        let ghost before = out@;
        out.push(row);
        proof {
            assert forall|k: int| 0 <= k < r + 1 implies ints((#[trigger] out@[base.len() + k])@)
                == tiled_row(*l, grids(windows@), dom as int, sources@, pvs@, i as int, k) by {
                if k < r {
                    assert(out@[base.len() + k] == before[base.len() + k]);
                }
            }
            if (r + 1) % 32 != 0 {
                assert((r + 1) / 32 == r / 32);
            }
        }
    }
    merge(root, digest)
}

/// Whether the root that the statements were folded to is the one that their digests fold to.
pub fn check_tx_root(root: Digest, digests: &Vec<Digest>) -> (r: Result<(), AggregationError>)
    ensures
        r == (if ints(root@) == oracle_root(digests@, digests@.len()) {
            Ok::<(), AggregationError>(())
        } else {
            Err(AggregationError::TraceLayout(LayoutFault::TxRoot))
        }),
{
    let expected: Digest = fold_digests(digests);
    let ghost a = ints(root@);
    let ghost b = ints(expected@);
    if root[0] != expected[0] || root[1] != expected[1] || root[2] != expected[2] || root[3]
        != expected[3] {
        assert(a[0] != b[0] || a[1] != b[1] || a[2] != b[2] || a[3] != b[3]);
        return Err(AggregationError::TraceLayout(LayoutFault::TxRoot));
    }
    assert(a =~= b);
    Ok(())
}

/// Builds the aggregate trace: checks that the inner proofs have one shape, that the chain stands
/// behind the queries and, where a limit is given, that the trace keeps it; then lays the windows one
/// below the other and folds the statements; and checks the root against the digests of the
/// statements.
pub fn build_instance(
    shapes: &Vec<InnerShape>,
    windows: &Vec<Trace>,
    l: &FoldLayout,
    sources: &Vec<BlockSource>,
    pvs: &Vec<Vec<u64>>,
    dom: u64,
    digests: &Vec<Digest>,
    limit: Option<usize>,
) -> (r: Result<AggregateTrace, AggregationError>)
    requires
        shapes.len() == pvs.len(),
        pvs.len() > 0 ==> l.fits(sources.len() as int, pvs.len() as int),
        parts_ok(windows.len() as int, sources@, pvs@),
    ensures
        ({
            let fail = aggregate_fail(
                shapes@,
                windows_match(*l, grids(windows@)),
                *l,
                sources@,
                pvs@,
                dom as int,
                digests@,
                limit,
            );
            match r {
                Err(e) => fail == Some(e),
                Ok(t) => {
                    &&& fail is None
                    &&& aggregate_is(t, *l, grids(windows@), sources@, pvs@, dom as int)
                },
            }
        }),
{
    let k: usize = pvs.len();
    if k == 0 {
        return Err(AggregationError::Empty);
    }
    if !shapes_agree(shapes) {
        return Err(AggregationError::MismatchedInnerShape);
    }
    proof {
        assert(0 <= l.n_queries * l.m_period) by (nonlinear_arith);
    }
    if l.fold_block * BLOCK < l.tr + l.n_queries * l.m_period {
        return Err(AggregationError::TraceLayout(LayoutFault::FoldOverlap));
    }
    match limit {
        Some(most) => match checked_trace_felts_with_limit(
            "production aggregate folded trace",
            l.height,
            l.fold_w,
            most,
        ) {
            Err(e) => {
                return Err(e);
            },
            Ok(_) => {},
        },
        None => {},
    }
    if !windows_are(l, windows) {
        return Err(AggregationError::MismatchedInnerShape);
    }
    let mut rows: Trace = Vec::new();
    let mut root: Digest = [0; 4];
    assert(ints(root@) =~= root_at(dom as int, sources@, pvs@, 0));
    for i in 0..k
        invariant
            k == pvs.len(),
            l.fits(sources.len() as int, pvs.len() as int),
            parts_ok(windows.len() as int, sources@, pvs@),
            windows_match(*l, grids(windows@)),
            ints(root@) == root_at(dom as int, sources@, pvs@, i as nat),
            rows.len() == i * l.inst_h,
            forall|j: int, r: int|
                #![trigger rows@[j * l.inst_h + r]]
                0 <= j < i && 0 <= r < l.inst_h ==> ints(rows@[j * l.inst_h + r]@) == tiled_row(
                    *l,
                    grids(windows@),
                    dom as int,
                    sources@,
                    pvs@,
                    j,
                    r,
                ),
    {
        let ghost before = rows@;
        proof {
            assert((i + 1) * l.inst_h == i * l.inst_h + l.inst_h) by (nonlinear_arith);
            assert((i + 1) * l.inst_h <= k * l.inst_h) by (nonlinear_arith)
                requires
                    i + 1 <= k,
            ;
        }
        root = tile_instance(l, windows, sources, pvs, dom, i, root, &mut rows);
        proof {
            assert forall|j: int, r: int|
                #![trigger rows@[j * l.inst_h + r]]
                0 <= j < i + 1 && 0 <= r < l.inst_h implies ints(rows@[j * l.inst_h + r]@)
                == tiled_row(*l, grids(windows@), dom as int, sources@, pvs@, j, r) by {
                if j < i {
                    assert(j * l.inst_h + r < i * l.inst_h) by (nonlinear_arith)
                        requires
                            j < i,
                            0 <= r < l.inst_h,
                    ;
                    assert(0 <= j * l.inst_h) by (nonlinear_arith)
                        requires
                            0 <= j,
                    ;
                    assert(rows@[j * l.inst_h + r] == before[j * l.inst_h + r]);
                } else {
                    assert(rows@[before.len() + r] == rows@[j * l.inst_h + r]);
                }
            }
        }
    }
    match check_tx_root(root, digests) {
        Err(e) => {
            return Err(e);
        },
        Ok(()) => {},
    }
    let start: usize = rows.len();
    let ghost tiled = rows@;
    for j in start..l.height
        invariant
            start == tiled.len(),
            start <= l.height,
            rows.len() == j,
            forall|x: int| 0 <= x < start ==> #[trigger] rows@[x] == tiled[x],
            forall|x: int|
                start <= x < j ==> ints((#[trigger] rows@[x])@) == zeros(
                    l.fold_w as int,
                ),
    {
        rows.push(zero_cells(l.fold_w));
    }
    proof {
        assert forall|i: int, r: int|
            #![trigger rows@[i * l.inst_h + r]]
            0 <= i < pvs.len() && 0 <= r < l.inst_h implies ints(rows@[i * l.inst_h + r]@)
            == tiled_row(*l, grids(windows@), dom as int, sources@, pvs@, i, r) by {
            assert(i * l.inst_h + r < k * l.inst_h) by (nonlinear_arith)
                requires
                    i < k,
                    0 <= r < l.inst_h,
            ;
            assert(0 <= i * l.inst_h) by (nonlinear_arith)
                requires
                    0 <= i,
            ;
            assert(rows@[i * l.inst_h + r] == tiled[i * l.inst_h + r]);
        }
    }
    Ok(AggregateTrace { rows, tx_root: root })
}

/// Builds the aggregate trace of hiding inner proofs, held to a limit.
pub fn build_production_instance(
    shapes: &Vec<InnerShape>,
    windows: &Vec<Trace>,
    l: &FoldLayout,
    sources: &Vec<BlockSource>,
    pvs: &Vec<Vec<u64>>,
    dom: u64,
    digests: &Vec<Digest>,
    limit_felts: usize,
) -> (r: Result<AggregateTrace, AggregationError>)
    requires
        shapes.len() == pvs.len(),
        pvs.len() > 0 ==> l.fits(sources.len() as int, pvs.len() as int),
        parts_ok(windows.len() as int, sources@, pvs@),
    ensures
        ({
            let fail = aggregate_fail(
                shapes@,
                windows_match(*l, grids(windows@)),
                *l,
                sources@,
                pvs@,
                dom as int,
                digests@,
                Some(limit_felts),
            );
            match r {
                Err(e) => fail == Some(e),
                Ok(t) => {
                    &&& fail is None
                    &&& aggregate_is(t, *l, grids(windows@), sources@, pvs@, dom as int)
                },
            }
        }),
{
    build_instance(shapes, windows, l, sources, pvs, dom, digests, Some(limit_felts))
}

/// The chain of an instance starts at the root before it and ends at the root behind it: its last block
/// compresses the root with the digest that its other blocks lead to.
pub proof fn law_chain_root(
    dom: int,
    sources: Seq<BlockSource>,
    pvs: Seq<Vec<u64>>,
    i: nat,
)
    requires
        i < pvs.len(),
    ensures
        root_at(dom, sources, pvs, i + 1) == take4(
            perm(chain_input(dom, sources, pvs, i as int, sources.len() as int)),
        ),
        forall|b: nat|
            b < sources.len() ==> #[trigger] statement_at(dom, sources, ints(pvs[i as int]@), b + 1)
                == take4(perm(chain_input(dom, sources, pvs, i as int, b as int))),
{
}

/// The most elements that are emitted at a time.
pub const EMIT_MAX_FELTS: usize = 33554432;

/// The rows that a range is emitted in at a time: a query region whole, anything else as far as the
/// elements allow, one row at least.
pub open spec fn rows_per_chunk(range: MonolithTraceRowRange, fused_w: int) -> int {
    let fit = EMIT_MAX_FELTS as int / fused_w;
    let some = if fit < 1 {
        1
    } else {
        fit
    };
    match range.kind {
        MonolithTracePart::Query { .. } => range.rows as int,
        _ => if some < range.rows {
            some
        } else {
            range.rows as int
        },
    }
}

/// The chunks cover the first `n` rows of a range one behind the other.
pub open spec fn chunks_cover(
    chunks: Seq<MonolithTraceRowRange>,
    range: MonolithTraceRowRange,
    per: int,
) -> bool {
    forall|c: int|
        #![trigger chunks[c]]
        0 <= c < chunks.len() ==> {
            &&& chunks[c].kind == range.kind
            &&& chunks[c].width == range.width
            &&& chunks[c].start_row == range.start_row + c * per
            &&& chunks[c].rows == (if range.rows - c * per < per {
                range.rows - c * per
            } else {
                per
            })
            &&& chunks[c].rows > 0
        }
}

/// Splits a range into the chunks that it is emitted in.
pub fn emit_chunks(range: &MonolithTraceRowRange, fused_w: usize) -> (r: Vec<MonolithTraceRowRange>)
    requires
        fused_w > 0,
        range.start_row + range.rows <= usize::MAX,
    ensures
        chunks_cover(r@, *range, rows_per_chunk(*range, fused_w as int)),
        range.rows == 0 ==> r.len() == 0,
        range.rows > 0 ==> (r.len() - 1) * rows_per_chunk(*range, fused_w as int) < range.rows
            <= r.len() * rows_per_chunk(*range, fused_w as int),
{
    let fit: usize = EMIT_MAX_FELTS / fused_w;
    let some: usize = if fit < 1 {
        1
    } else {
        fit
    };
    let per: usize = match range.kind {
        MonolithTracePart::Query { .. } => range.rows,
        _ => if some < range.rows {
            some
        } else {
            range.rows
        },
    };
    let mut out: Vec<MonolithTraceRowRange> = Vec::new();
    let mut local: usize = 0;
    while local < range.rows
        invariant
            per == rows_per_chunk(*range, fused_w as int),
            range.rows > 0 ==> per > 0,
            per <= range.rows,
            range.start_row + range.rows <= usize::MAX,
            local <= range.rows,
            local == (if out.len() * per < range.rows {
                out.len() * per
            } else {
                range.rows as int
            }),
            out.len() > 0 ==> (out.len() - 1) * per < range.rows,
            range.rows == 0 ==> out.len() == 0,
            chunks_cover(out@, *range, per as int),
        decreases range.rows - local,
    {
        let left: usize = range.rows - local;
        let rows: usize = if left < per {
            left
        } else {
            per
        };
        let ghost n = out.len() as int;
        out.push(
            MonolithTraceRowRange {
                kind: range.kind,
                start_row: range.start_row + local,
                rows,
                width: range.width,
            },
        );
        proof {
            assert((n + 1) * per == n * per + per) by (nonlinear_arith);
        }
        local = local + rows;
    }
    out
}

} // verus!
