//! The trace of the fused system: the transcript region, and one super-tile per query.
use super::cells::{
    extend, put, query_is_ok, query_ok, split_cells, split_row, zero_cells, zeros, Query,
};
use super::fused::{MonolithAir, M_PERIOD};
use super::geometry::{
    kind_z, ranges_z, row_ranges_z, trace_row_ranges, MonolithTracePart, MonolithTraceRowRange,
};
use super::merkle_tile::{mt_build_trace, mt_row, mt_trace};
use super::parts::DP_LOG_HEIGHT;
use super::sponge::{ft_build_trace, ft_trace};
use super::super_tile::{arith_row, arith_rows};
use crate::bits::{shift_right, shr_z};
use crate::cols::np2;
use crate::expr::{cells, Trace};
use crate::field::{ints, red, Challenge, P};
use crate::merkle::{path_z, Digest};
use crate::transcript::states;
use vstd::prelude::*;

verus! {

/// An opened fold group and the path that authenticates it.
#[derive(Debug)]
pub struct GroupOpening {
    pub group: [u64; 4],
    pub path: Vec<(Digest, bool)>,
}

/// What a super-tile needs of a query: its arithmetic, its opened trace value with its path, the
/// path of its quotient row, and its fold groups.
#[derive(Debug)]
pub struct TileOpenings {
    pub query: Query,
    pub v: u64,
    pub path: Vec<(Digest, bool)>,
    pub quot_path: Vec<(Digest, bool)>,
    pub commits: Vec<GroupOpening>,
}

/// The paths of a tile: of the trace value, of the quotient row, of the six fold groups.
pub const SEGMENTS: usize = 8;

/// The block that hashes the leaf of path `k`.
pub open spec fn seg_start(k: int) -> int {
    seq![1int, 6, 11, 15, 18, 20, 21, 22][k]
}

/// The number of levels of path `k`.
pub open spec fn seg_depth(k: int) -> int {
    seq![4int, 4, 3, 2, 1, 0, 0, 0][k]
}

/// The path that block `b` belongs to.
pub open spec fn seg_at(b: int) -> int {
    if b < 6 {
        0
    } else if b < 11 {
        1
    } else if b < 15 {
        2
    } else if b < 18 {
        3
    } else if b < 20 {
        4
    } else {
        b - 15
    }
}

pub fn segment_depth(k: usize) -> (d: usize)
    requires
        k < SEGMENTS,
    ensures
        d == seg_depth(k as int),
{
    let t: [usize; 8] = [4, 4, 3, 2, 1, 0, 0, 0];
    t[k]
}

impl TileOpenings {
    /// The leaf of path `k`.
    pub open spec fn leaf_z(self, k: int) -> Seq<int> {
        if k == 0 {
            seq![self.v as int]
        } else if k == 1 {
            seq![self.query.terms@[2].px as int, self.query.terms@[3].px as int]
        } else {
            ints(self.commits@[k - 2].group@)
        }
    }

    /// Path `k`.
    pub open spec fn path_at_z(self, k: int) -> Seq<(Seq<int>, bool)> {
        if k == 0 {
            path_z(self.path@)
        } else if k == 1 {
            path_z(self.quot_path@)
        } else {
            path_z(self.commits@[k - 2].path@)
        }
    }

    /// The query can be put into a super-tile with room for `n` terms: its openings have the depths
    /// of the geometry.
    pub open spec fn fits(self, n: int) -> bool {
        &&& query_ok(self.query, 10)
        &&& 4 <= self.query.terms.len() <= n
        &&& self.path.len() == 4
        &&& self.quot_path.len() == 4
        &&& self.commits.len() == 6
        &&& forall|k: int| 2 <= k < 8 ==> #[trigger] self.path_at_z(k).len() == seg_depth(k)
    }

    /// Whether the query can be put into a super-tile.
    pub fn is_fit(&self, n: usize) -> (r: bool)
        ensures
            r == self.fits(n as int),
    {
        if !query_is_ok(&self.query, DP_LOG_HEIGHT) || self.query.terms.len() < 4
            || self.query.terms.len() > n || self.path.len() != 4 || self.quot_path.len() != 4
            || self.commits.len() != 6 {
            return false;
        }
        for i in 0..6
            invariant
                self.commits.len() == 6,
                forall|k: int| 2 <= k < 2 + i ==> #[trigger] self.path_at_z(k).len() == seg_depth(k),
        {
            assert(self.path_at_z(i + 2).len() == self.commits@[i as int].path.len());
            if self.commits[i].path.len() != segment_depth(i + 2) {
                return false;
            }
        }
        true
    }

    /// The cells of row `j` that the arithmetic and the Merkle blocks share.
    pub open spec fn left_row(self, n: int, j: int) -> Seq<int> {
        if j < 32 {
            arith_row(self.query, n, j)
        } else {
            let k = seg_at(j / 32);
            mt_row(self.leaf_z(k), self.path_at_z(k), seg_depth(k) + 1, j - 32 * seg_start(k))
                + zeros(18 + 9 * n)
        }
    }

    /// The values that a tile holds on all its rows: the opened value, the quotient row, the fold
    /// groups.
    pub open spec fn held_z(self) -> Seq<int> {
        self.leaf_z(0) + self.leaf_z(1) + self.leaf_z(2) + self.leaf_z(3) + self.leaf_z(4)
            + self.leaf_z(5) + self.leaf_z(6) + self.leaf_z(7)
    }

    /// Row `j` of a tile with room for `n` terms, of a query with `rounds` rounds and the index
    /// element `felt`.
    pub open spec fn row(self, n: int, rounds: int, felt: int, alpha: (int, int), j: int) -> Seq<
        int,
    > {
        (self.left_row(n, j) + (if j == 0 {
            split_cells(felt)
        } else {
            zeros(96)
        })).push(
            if j <= rounds {
                shr_z(red(felt) % 1024, j as nat)
            } else {
                0
            },
        ).push(alpha.0).push(alpha.1) + self.held_z()
    }

    /// The leaf of path `k`.
    fn leaf(&self, k: usize) -> (r: Vec<u64>)
        requires
            k < 8,
            self.query.terms.len() >= 4,
            self.commits.len() == 6,
        ensures
            ints(r@) == self.leaf_z(k as int),
            r.len() <= 8,
    {
        let mut r: Vec<u64> = Vec::new();
        if k == 0 {
            r.push(self.v);
        } else if k == 1 {
            r.push(self.query.terms[2].px);
            r.push(self.query.terms[3].px);
        } else {
            let g: [u64; 4] = self.commits[k - 2].group;
            r.push(g[0]);
            r.push(g[1]);
            r.push(g[2]);
            r.push(g[3]);
        }
        assert(ints(r@) =~= self.leaf_z(k as int));
        r
    }

    /// The rows of path `k`.
    fn path_rows(&self, n: usize, k: usize) -> (t: Trace)
        requires
            k < 8,
            9 * n + 300 <= usize::MAX,
            self.fits(n as int),
        ensures
            t.len() == 32 * (seg_depth(k as int) + 1),
            forall|i: int|
                0 <= i < t.len() ==> ints((#[trigger] t@[i])@) == mt_row(
                    self.leaf_z(k as int),
                    self.path_at_z(k as int),
                    seg_depth(k as int) + 1,
                    i,
                ) + zeros(18 + 9 * n),
    {
        let leaf: Vec<u64> = self.leaf(k);
        let blocks: usize = segment_depth(k) + 1;
        let path: &Vec<(Digest, bool)> = if k == 0 {
            &self.path
        } else if k == 1 {
            &self.quot_path
        } else {
            &self.commits[k - 2].path
        };
        let ghost (lz, pz) = (self.leaf_z(k as int), self.path_at_z(k as int));
        assert(path_z(path@) == pz);
        assert(pz.len() == seg_depth(k as int));
        let (rows, _root) = mt_build_trace(leaf.as_slice(), path.as_slice(), blocks);
        assert(cells(rows@).len() == 32 * blocks);
        let m: usize = 32 * blocks;
        let mut t: Trace = Vec::new();
        for i in 0..m
            invariant
                m == 32 * blocks,
                rows.len() == m,
                9 * n + 300 <= usize::MAX,
                cells(rows@) == mt_trace(lz, pz, blocks as int),
                t.len() == i,
                forall|j: int|
                    0 <= j < i ==> ints((#[trigger] t@[j])@) == mt_row(lz, pz, blocks as int, j)
                        + zeros(18 + 9 * n),
        {
            let mut row: Vec<u64> = Vec::new();
            assert(ints(row@) =~= Seq::<int>::empty());
            extend(&mut row, &rows[i]);
            assert(cells(rows@)[i as int] == mt_row(lz, pz, blocks as int, i as int));
            assert(ints(row@) =~= mt_row(lz, pz, blocks as int, i as int));
            extend(&mut row, &zero_cells(18 + 9 * n));
            t.push(row);
        }
        t
    }

    /// The rows of a tile without the columns behind its terms.
    fn left_rows(&self, n: usize) -> (t: Trace)
        requires
            9 * n + 300 <= usize::MAX,
            self.fits(n as int),
        ensures
            t.len() == M_PERIOD,
            forall|j: int|
                0 <= j < M_PERIOD ==> ints((#[trigger] t@[j])@) == self.left_row(n as int, j),
    {
        let mut t: Trace = arith_rows(&self.query, n);
        assert(forall|j: int|
            0 <= j < 32 ==> ints((#[trigger] t@[j])@) == self.left_row(n as int, j));
        for k in 0..SEGMENTS
            invariant
                9 * n + 300 <= usize::MAX,
                self.fits(n as int),
                t.len() == 32 * (if k < 8 {
                    seg_start(k as int)
                } else {
                    23
                }),
                forall|j: int|
                    0 <= j < t.len() ==> ints((#[trigger] t@[j])@) == self.left_row(n as int, j),
        {
            let mut rows: Trace = self.path_rows(n, k);
            let ghost (before, seg) = (t@, rows@);
            let ghost s = seg_start(k as int);
            t.append(&mut rows);
            proof {
                assert forall|j: int| 0 <= j < t.len() implies ints((#[trigger] t@[j])@)
                    == self.left_row(n as int, j) by {
                    if j < 32 * s {
                        assert(t@[j] == before[j]);
                    } else {
                        assert(t@[j] == seg[j - 32 * s]);
                        assert(seg_at(j / 32) == k);
                    }
                }
            }
        }
        t
    }

    /// The values that a tile holds on all its rows.
    fn held(&self) -> (r: Vec<u64>)
        requires
            self.query.terms.len() >= 4,
            self.commits.len() == 6,
        ensures
            ints(r@) == self.held_z(),
    {
        let mut r: Vec<u64> = self.leaf(0);
        extend(&mut r, &self.leaf(1));
        extend(&mut r, &self.leaf(2));
        extend(&mut r, &self.leaf(3));
        extend(&mut r, &self.leaf(4));
        extend(&mut r, &self.leaf(5));
        extend(&mut r, &self.leaf(6));
        extend(&mut r, &self.leaf(7));
        r
    }

    /// The rows of a tile.
    fn rows(&self, n: usize, rounds: usize, felt: u64, alpha: Challenge) -> (t: Trace)
        requires
            9 * n + 300 <= usize::MAX,
            self.fits(n as int),
        ensures
            t.len() == M_PERIOD,
            forall|j: int|
                0 <= j < M_PERIOD ==> ints((#[trigger] t@[j])@) == self.row(
                    n as int,
                    rounds as int,
                    felt as int,
                    alpha@,
                    j,
                ),
    {
        let left: Trace = self.left_rows(n);
        let held: Vec<u64> = self.held();
        let low: u64 = (felt % P) % 1024;
        let mut t: Trace = Vec::new();
        for j in 0..M_PERIOD
            invariant
                left.len() == M_PERIOD,
                forall|i: int|
                    0 <= i < M_PERIOD ==> ints((#[trigger] left@[i])@) == self.left_row(
                        n as int,
                        i,
                    ),
                ints(held@) == self.held_z(),
                low == red(felt as int) % 1024,
                t.len() == j,
                forall|i: int|
                    0 <= i < j ==> ints((#[trigger] t@[i])@) == self.row(
                        n as int,
                        rounds as int,
                        felt as int,
                        alpha@,
                        i,
                    ),
        {
            let mut row: Vec<u64> = Vec::new();
            assert(ints(row@) =~= Seq::<int>::empty());
            extend(&mut row, &left[j]);
            assert(ints(row@) =~= self.left_row(n as int, j as int));
            if j == 0 {
                extend(&mut row, &split_row(felt));
            } else {
                extend(&mut row, &zero_cells(96));
            }
            let rem: u64 = if j <= rounds {
                shift_right(low, j)
            } else {
                0
            };
            put(&mut row, rem);
            put(&mut row, alpha.c0);
            put(&mut row, alpha.c1);
            extend(&mut row, &held);
            t.push(row);
        }
        t
    }
}

/// Every query can be put into a super-tile.
pub open spec fn openings_fit(qs: Seq<TileOpenings>, n: int) -> bool {
    forall|i: int| 0 <= i < qs.len() ==> (#[trigger] qs[i]).fits(n)
}

/// Whether every query can be put into a super-tile.
pub fn openings_are_fit(qs: &Vec<TileOpenings>, n: usize) -> (r: bool)
    ensures
        r == openings_fit(qs@, n as int),
{
    let m: usize = qs.len();
    for i in 0..m
        invariant
            m == qs.len(),
            forall|j: int| 0 <= j < i ==> (#[trigger] qs@[j]).fits(n as int),
    {
        if !qs[i].is_fit(n) {
            assert(!qs@[i as int].fits(n as int));
            return false;
        }
    }
    true
}

impl MonolithAir {
    /// Row `r` of the trace.
    pub open spec fn trace_row(
        self,
        inputs: Seq<Seq<int>>,
        qs: Seq<TileOpenings>,
        alpha: (int, int),
        felts: Seq<int>,
        r: int,
    ) -> Seq<int> {
        let tr = self.tr_z();
        let (q, j) = ((r - tr) / 736, (r - tr) % 736);
        if r < tr {
            (ft_trace(inputs)[r] + zeros(self.carry_z() - 8)).push(alpha.0).push(alpha.1) + zeros(
                27,
            )
        } else if q < self.n_queries {
            qs[q].row(self.n_terms as int, self.nb_z() - 3, felts[q], alpha, j)
        } else {
            zeros(self.carry_z()).push(alpha.0).push(alpha.1) + zeros(27)
        }
    }

    /// The trace.
    pub open spec fn trace_z(
        self,
        inputs: Seq<Seq<int>>,
        qs: Seq<TileOpenings>,
        alpha: (int, int),
        felts: Seq<int>,
    ) -> Seq<Seq<int>> {
        Seq::new(self.height_z() as nat, |r: int| self.trace_row(inputs, qs, alpha, felts, r))
    }

    /// The block inputs fill the region, and there are a query and an index element for each tile.
    pub open spec fn inputs_fit(self, blocks: int, qs: int, felts: int) -> bool {
        &&& np2(blocks) == np2(self.counts.len() as int)
        &&& qs == self.n_queries
        &&& felts >= self.n_queries
    }
}

/// Fills the trace from the recorded inputs of the transcript blocks, the openings of the queries,
/// the combination challenge and the index elements.
pub fn monolith_build_trace(
    air: &MonolithAir,
    block_inputs: &Vec<[u64; 8]>,
    per_query: &Vec<TileOpenings>,
    alpha_fri: Challenge,
    index_felts: &[u64],
) -> (t: Trace)
    requires
        air.fits(),
        air.inputs_fit(
            block_inputs.len() as int,
            per_query.len() as int,
            index_felts@.len() as int,
        ),
        openings_fit(per_query@, air.n_terms as int),
    ensures
        cells(t@) == air.trace_z(
            states(block_inputs@),
            per_query@,
            alpha_fri@,
            ints(index_felts@),
        ),
{
    proof {
        air.lemma_height();
    }
    let ghost (ins, fs, az) = (states(block_inputs@), ints(index_felts@), alpha_fri@);
    let (h, tr, nq) = (air.height(), air.tr(), air.n_queries);
    let rest: usize = air.carry() - 8;
    let rounds: usize = air.nb() - 3;
    let ft: Trace = ft_build_trace(block_inputs);
    proof {
        assert(cells(ft@).len() == tr);
        assert forall|r: int| 0 <= r < tr implies ints((#[trigger] ft@[r])@) == ft_trace(ins)[r] by {
            assert(cells(ft@)[r] == ft_trace(ins)[r]);
        }
    }
    let mut t: Trace = Vec::new();
    for r in 0..tr
        invariant
            tr == air.tr_z(),
            ft.len() == tr,
            rest == air.carry_z() - 8,
            az == alpha_fri@,
            forall|i: int| 0 <= i < tr ==> ints((#[trigger] ft@[i])@) == ft_trace(ins)[i],
            t.len() == r,
            forall|i: int|
                0 <= i < r ==> ints((#[trigger] t@[i])@) == air.trace_row(
                    ins,
                    per_query@,
                    az,
                    fs,
                    i,
                ),
    {
        let mut row: Vec<u64> = Vec::new();
        assert(ints(row@) =~= Seq::<int>::empty());
        extend(&mut row, &ft[r]);
        assert(ints(row@) =~= ft_trace(ins)[r as int]);
        extend(&mut row, &zero_cells(rest));
        put(&mut row, alpha_fri.c0);
        put(&mut row, alpha_fri.c1);
        extend(&mut row, &zero_cells(27));
        t.push(row);
    }
    for q in 0..nq
        invariant
            tr == air.tr_z(),
            nq == air.n_queries,
            nq == per_query.len(),
            nq <= index_felts@.len(),
            fs == ints(index_felts@),
            az == alpha_fri@,
            rounds == air.nb_z() - 3,
            air.wf(),
            openings_fit(per_query@, air.n_terms as int),
            t.len() == tr + 736 * q,
            forall|i: int|
                0 <= i < tr + 736 * q ==> ints((#[trigger] t@[i])@) == air.trace_row(
                    ins,
                    per_query@,
                    az,
                    fs,
                    i,
                ),
    {
        assert(per_query@[q as int].fits(air.n_terms as int));
        let mut rows: Trace = per_query[q].rows(air.n_terms, rounds, index_felts[q], alpha_fri);
        let ghost (before, tile) = (t@, rows@);
        t.append(&mut rows);
        proof {
            assert forall|i: int| 0 <= i < tr + 736 * (q + 1) implies ints((#[trigger] t@[i])@)
                == air.trace_row(ins, per_query@, az, fs, i) by {
                if i < tr + 736 * q {
                    assert(t@[i] == before[i]);
                } else {
                    let j = i - tr - 736 * q;
                    assert(t@[i] == tile[j]);
                    assert((i - tr) / 736 == q && (i - tr) % 736 == j);
                    assert(fs[q as int] == index_felts@[q as int]);
                }
            }
        }
    }
    for r in tr + 736 * nq..h
        invariant
            tr == air.tr_z(),
            nq == air.n_queries,
            tr + 736 * nq <= h,
            rest == air.carry_z() - 8,
            az == alpha_fri@,
            air.wf(),
            t.len() == r,
            forall|i: int|
                0 <= i < r ==> ints((#[trigger] t@[i])@) == air.trace_row(
                    ins,
                    per_query@,
                    az,
                    fs,
                    i,
                ),
    {
        let mut row: Vec<u64> = zero_cells(rest + 8);
        put(&mut row, alpha_fri.c0);
        put(&mut row, alpha_fri.c1);
        extend(&mut row, &zero_cells(27));
        t.push(row);
    }
    assert(cells(t@) =~= air.trace_z(ins, per_query@, az, fs));
    t
}

/// Fills the trace, unless a query cannot be put into a super-tile.
pub fn try_monolith_build_trace(
    air: &MonolithAir,
    block_inputs: &Vec<[u64; 8]>,
    per_query: &Vec<TileOpenings>,
    alpha_fri: Challenge,
    index_felts: &[u64],
) -> (r: Option<Trace>)
    requires
        air.fits(),
        air.inputs_fit(
            block_inputs.len() as int,
            per_query.len() as int,
            index_felts@.len() as int,
        ),
    ensures
        r is Some <==> openings_fit(per_query@, air.n_terms as int),
        r matches Some(t) ==> cells(t@) == air.trace_z(
            states(block_inputs@),
            per_query@,
            alpha_fri@,
            ints(index_felts@),
        ),
{
    if !openings_are_fit(per_query, air.n_terms) {
        return None;
    }
    Some(monolith_build_trace(air, block_inputs, per_query, alpha_fri, index_felts))
}

/// The row chunks of a trace that can be filled independently.
pub fn monolith_trace_row_ranges(air: &MonolithAir) -> (r: Vec<MonolithTraceRowRange>)
    requires
        air.fits(),
    ensures
        ranges_z(r@) == row_ranges_z(
            air.tr_z(),
            air.n_queries as int,
            736,
            air.height_z(),
            air.fused_w_z(),
        ),
        forall|i: int| 0 <= i < r.len() ==> (#[trigger] r@[i]).width == air.fused_w_z(),
{
    proof {
        air.lemma_height();
    }
    trace_row_ranges(air.tr(), air.n_queries, M_PERIOD, air.height(), air.fused_w())
}

/// The rows that a chunk of the trace holds.
pub open spec fn chunk_rows(trace: Seq<Seq<int>>, range: MonolithTraceRowRange) -> Seq<Seq<int>> {
    trace.subrange(range.start_row as int, range.start_row + range.rows)
}

/// Whether a chunk is one of those of the trace.
pub open spec fn is_chunk(air: MonolithAir, range: MonolithTraceRowRange) -> bool {
    match range.kind {
        MonolithTracePart::Transcript => range.start_row == 0 && range.rows == air.tr_z(),
        MonolithTracePart::Query { q } => q < air.n_queries && range.start_row == air.tr_z() + 736
            * q && range.rows == 736,
        MonolithTracePart::Padding => range.start_row == air.tr_z() + 736 * air.n_queries
            && range.start_row + range.rows == air.height_z(),
    }
}

/// Every chunk of the list of row ranges can be filled without the others.
pub proof fn law_listed_chunk(air: MonolithAir, range: MonolithTraceRowRange, i: int)
    requires
        air.fits(),
        0 <= i < row_ranges_z(
            air.tr_z(),
            air.n_queries as int,
            736,
            air.height_z(),
            air.fused_w_z(),
        ).len(),
        (kind_z(range.kind), range.start_row as int, range.rows as int) == row_ranges_z(
            air.tr_z(),
            air.n_queries as int,
            736,
            air.height_z(),
            air.fused_w_z(),
        )[i],
    ensures
        is_chunk(air, range),
{
    air.lemma_height();
}

/// Fills one chunk of the trace without the others.
pub fn emit_range(
    air: &MonolithAir,
    block_inputs: &Vec<[u64; 8]>,
    per_query: &Vec<TileOpenings>,
    alpha_fri: Challenge,
    index_felts: &[u64],
    range: MonolithTraceRowRange,
) -> (t: Trace)
    requires
        air.fits(),
        air.inputs_fit(
            block_inputs.len() as int,
            per_query.len() as int,
            index_felts@.len() as int,
        ),
        openings_fit(per_query@, air.n_terms as int),
        is_chunk(*air, range),
    ensures
        cells(t@) == chunk_rows(
            air.trace_z(states(block_inputs@), per_query@, alpha_fri@, ints(index_felts@)),
            range,
        ),
{
    proof {
        air.lemma_height();
    }
    let ghost (ins, fs, az) = (states(block_inputs@), ints(index_felts@), alpha_fri@);
    let ghost whole = air.trace_z(ins, per_query@, az, fs);
    let rest: usize = air.carry() - 8;
    let mut t: Trace = Vec::new();
    match range.kind {
        MonolithTracePart::Transcript => {
            let tr: usize = air.tr();
            let ft: Trace = ft_build_trace(block_inputs);
            proof {
                assert(cells(ft@).len() == tr);
                assert forall|r: int| 0 <= r < tr implies ints((#[trigger] ft@[r])@) == ft_trace(
                    ins,
                )[r] by {
                    assert(cells(ft@)[r] == ft_trace(ins)[r]);
                }
            }
            for r in 0..tr
                invariant
                    tr == air.tr_z(),
                    ft.len() == tr,
                    rest == air.carry_z() - 8,
                    az == alpha_fri@,
                    forall|i: int| 0 <= i < tr ==> ints((#[trigger] ft@[i])@) == ft_trace(ins)[i],
                    t.len() == r,
                    forall|i: int|
                        0 <= i < r ==> ints((#[trigger] t@[i])@) == air.trace_row(
                            ins,
                            per_query@,
                            az,
                            fs,
                            i,
                        ),
            {
                let mut row: Vec<u64> = Vec::new();
                assert(ints(row@) =~= Seq::<int>::empty());
                extend(&mut row, &ft[r]);
                assert(ints(row@) =~= ft_trace(ins)[r as int]);
                extend(&mut row, &zero_cells(rest));
                put(&mut row, alpha_fri.c0);
                put(&mut row, alpha_fri.c1);
                extend(&mut row, &zero_cells(27));
                t.push(row);
            }
        },
        MonolithTracePart::Query { q } => {
            assert(per_query@[q as int].fits(air.n_terms as int));
            let rounds: usize = air.nb() - 3;
            t = per_query[q].rows(air.n_terms, rounds, index_felts[q], alpha_fri);
            proof {
                assert forall|j: int| 0 <= j < 736 implies ints((#[trigger] t@[j])@)
                    == air.trace_row(ins, per_query@, az, fs, range.start_row + j) by {
                    let d = range.start_row + j - air.tr_z();
                    assert(d / 736 == q && d % 736 == j);
                    assert(fs[q as int] == index_felts@[q as int]);
                }
            }
        },
        MonolithTracePart::Padding => {
            let n: usize = range.rows;
            for r in 0..n
                invariant
                    n == range.rows,
                    range.start_row == air.tr_z() + 736 * air.n_queries,
                    rest == air.carry_z() - 8,
                    air.wf(),
                    az == alpha_fri@,
                    t.len() == r,
                    forall|i: int|
                        0 <= i < r ==> ints((#[trigger] t@[i])@) == air.trace_row(
                            ins,
                            per_query@,
                            az,
                            fs,
                            range.start_row + i,
                        ),
            {
                let mut row: Vec<u64> = zero_cells(rest + 8);
                put(&mut row, alpha_fri.c0);
                put(&mut row, alpha_fri.c1);
                extend(&mut row, &zero_cells(27));
                assert((range.start_row + r - air.tr_z()) / 736 >= air.n_queries);
                t.push(row);
            }
        },
    }
    assert(cells(t@) =~= chunk_rows(whole, range));
    t
}

/// Fills one chunk of the trace, unless a query cannot be put into a super-tile.
pub fn try_emit_range(
    air: &MonolithAir,
    block_inputs: &Vec<[u64; 8]>,
    per_query: &Vec<TileOpenings>,
    alpha_fri: Challenge,
    index_felts: &[u64],
    range: MonolithTraceRowRange,
) -> (r: Option<Trace>)
    requires
        air.fits(),
        air.inputs_fit(
            block_inputs.len() as int,
            per_query.len() as int,
            index_felts@.len() as int,
        ),
        is_chunk(*air, range),
    ensures
        r is Some <==> openings_fit(per_query@, air.n_terms as int),
        r matches Some(t) ==> cells(t@) == chunk_rows(
            air.trace_z(states(block_inputs@), per_query@, alpha_fri@, ints(index_felts@)),
            range,
        ),
{
    if openings_are_fit(per_query, air.n_terms) {
        Some(emit_range(air, block_inputs, per_query, alpha_fri, index_felts, range))
    } else {
        None
    }
}

} // verus!
