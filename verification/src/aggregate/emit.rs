//! The trace of an inner proof, chunk by chunk, from its window.
use super::options::{checked_trace_felts_with_limit, estimate_z, over_limit, AggregationError};
use super::source::{SymbolicHidingInnerWindow, SymbolicInnerWindow};
use super::tiling::{
    aggregate_fail, aggregate_is, build_instance, grids, parts_ok, window_matches,
    windows_match, AggregateTrace, BlockSource, FoldLayout, InnerShape,
};
use super::window::{coords, squares_z, window_schedule, HidingWitness};
use crate::cols::{next_power_of_two, np2};
use crate::expr::{cells, Trace};
use crate::field::{ints, Challenge};
use crate::merkle::Digest;
use crate::monolith::cells::zeros;
use crate::monolith::fused_trace::TileOpenings;
use crate::monolith::geometry::{
    kind_z, law_ranges_cover, ranges_z, row_ranges_z, trace_row_ranges, MonolithTracePart,
    MonolithTraceRowRange,
};
use crate::monolith::segment::{
    blank_rows, fill_monolith_query_segment, hold, lay, lemma_held_concat, overlaid,
    segment_z, sized, with_held, SegmentLayout,
};
use crate::monolith::sponge::{ft_build_trace, ft_inputs, ft_trace};
use crate::poseidon2::BLOCK;
use crate::replay::Replay;
use crate::transcript::states;
use vstd::prelude::*;

verus! {

/// Where the parts of an inner trace stand: the rows of a query, the columns that carry the combination
/// challenge, the public window where there is one, the selectors, and the height.
#[derive(Debug)]
pub struct WindowLayout {
    pub segment: SegmentLayout,
    pub carry: usize,
    pub column_window: bool,
    pub pw: usize,
    pub sel_base: usize,
    pub height: usize,
}

/// What the trace of an inner proof is made of: the inputs of the transcript's blocks, the openings of
/// the queries with their salts where the commitments hide, the combination challenge, the index
/// elements, and the public window and the selectors that every row holds.
#[derive(Debug)]
pub struct MonolithTraceSource<'a> {
    pub block_inputs: &'a Vec<[u64; 8]>,
    pub per_query: Vec<&'a TileOpenings>,
    pub hiding: Option<Vec<&'a HidingWitness>>,
    pub alpha_fri: Challenge,
    pub index_felts: &'a Vec<u64>,
    pub pub_window: &'a Vec<u64>,
    pub selector_window: &'a Vec<u64>,
}

/// The same as sequences.
#[verifier::ext_equal]
pub struct SourceZ {
    pub blocks: Seq<Seq<int>>,
    pub tiles: Seq<TileOpenings>,
    pub witnesses: Option<Seq<HidingWitness>>,
    pub alpha: (int, int),
    pub felts: Seq<int>,
    pub window: Seq<int>,
    pub selectors: Seq<int>,
}

impl SourceZ {
    /// The salts of a query.
    pub open spec fn witness(&self, q: int) -> Option<&HidingWitness> {
        match self.witnesses {
            Some(v) => Some(&v[q]),
            None => None,
        }
    }
}

/// The source of a hiding window.
pub open spec fn hiding_source(w: SymbolicHidingInnerWindow) -> SourceZ {
    SourceZ {
        blocks: states(w.replay.block_inputs@),
        tiles: Seq::new(w.queries@.len(), |q: int| w.queries@[q].tile),
        witnesses: Some(Seq::new(w.queries@.len(), |q: int| w.queries@[q].witness)),
        alpha: w.replay.challenges@[2]@,
        felts: ints(w.replay.index_felts@),
        window: ints(w.pub_window@),
        selectors: ints(w.selector_window@),
    }
}

/// The source of a window that hides nothing.
pub open spec fn plain_source(w: SymbolicInnerWindow) -> SourceZ {
    SourceZ {
        blocks: states(w.replay.block_inputs@),
        tiles: w.queries@,
        witnesses: None,
        alpha: w.replay.challenges@[2]@,
        felts: ints(w.replay.index_felts@),
        window: ints(w.pub_window@),
        selectors: ints(w.selector_window@),
    }
}

impl<'a> View for MonolithTraceSource<'a> {
    type V = SourceZ;

    open spec fn view(&self) -> SourceZ {
        SourceZ {
            blocks: states(self.block_inputs@),
            tiles: Seq::new(self.per_query@.len(), |q: int| *self.per_query@[q]),
            witnesses: match self.hiding {
                Some(v) => Some(Seq::new(v@.len(), |q: int| *v@[q])),
                None => None,
            },
            alpha: self.alpha_fri@,
            felts: ints(self.index_felts@),
            window: ints(self.pub_window@),
            selectors: ints(self.selector_window@),
        }
    }
}

impl SymbolicHidingInnerWindow {
    /// What the trace of the proof is made of.
    pub fn source(&self) -> (r: MonolithTraceSource<'_>)
        requires
            self.replay.challenges.len() > 2,
        ensures
            r@ == hiding_source(*self),
    {
        let n: usize = self.queries.len();
        let mut per_query: Vec<&TileOpenings> = Vec::new();
        let mut salts: Vec<&HidingWitness> = Vec::new();
        for q in 0..n
            invariant
                n == self.queries.len(),
                per_query.len() == q,
                salts.len() == q,
                forall|k: int| 0 <= k < q ==> *(#[trigger] per_query@[k]) == self.queries@[k].tile,
                forall|k: int| 0 <= k < q ==> *(#[trigger] salts@[k]) == self.queries@[k].witness,
        {
            per_query.push(&self.queries[q].tile);
            salts.push(&self.queries[q].witness);
        }
        let r: MonolithTraceSource<'_> = MonolithTraceSource {
            block_inputs: &self.replay.block_inputs,
            per_query,
            hiding: Some(salts),
            alpha_fri: self.replay.challenges[2],
            index_felts: &self.replay.index_felts,
            pub_window: &self.pub_window,
            selector_window: &self.selector_window,
        };
        proof {
            assert(r@.tiles =~= hiding_source(*self).tiles);
            assert(r@.witnesses->0 =~= hiding_source(*self).witnesses->0);
        }
        r
    }
}

impl SymbolicInnerWindow {
    /// What the trace of the proof is made of.
    pub fn source(&self) -> (r: MonolithTraceSource<'_>)
        requires
            self.replay.challenges.len() > 2,
        ensures
            r@ == plain_source(*self),
    {
        let n: usize = self.queries.len();
        let mut per_query: Vec<&TileOpenings> = Vec::new();
        for q in 0..n
            invariant
                n == self.queries.len(),
                per_query.len() == q,
                forall|k: int| 0 <= k < q ==> *(#[trigger] per_query@[k]) == self.queries@[k],
        {
            per_query.push(&self.queries[q]);
        }
        let r: MonolithTraceSource<'_> = MonolithTraceSource {
            block_inputs: &self.replay.block_inputs,
            per_query,
            hiding: None,
            alpha_fri: self.replay.challenges[2],
            index_felts: &self.replay.index_felts,
            pub_window: &self.pub_window,
            selector_window: &self.selector_window,
        };
        assert(r@.tiles =~= plain_source(*self).tiles);
        r
    }
}

/// The rows of the transcript.
pub open spec fn tr_z(w: SourceZ) -> int {
    BLOCK * np2(w.blocks.len() as int)
}

/// The rows of the transcript and of the queries.
pub open spec fn used_z(w: SourceZ, l: WindowLayout) -> int {
    tr_z(w) + w.tiles.len() * l.segment.m_period
}

/// The public window with the squares of the out-of-domain point, one for every round, behind it.
pub open spec fn window_z(window: Seq<int>, rounds: int) -> Seq<int> {
    window + coords(squares_z((window[2], window[3]), rounds as nat))
}

/// What every row of an inner trace holds: the combination challenge, and the public window.
pub open spec fn global_cells(w: SourceZ, l: WindowLayout) -> Seq<(int, Seq<int>)> {
    seq![(l.carry as int, seq![w.alpha.0, w.alpha.1])] + (if l.column_window {
        seq![(l.pw as int, window_z(w.window, l.segment.rounds as int))]
    } else {
        Seq::empty()
    })
}

/// The same with the selectors.
pub open spec fn all_held(w: SourceZ, l: WindowLayout) -> Seq<(int, Seq<int>)> {
    global_cells(w, l) + seq![(l.sel_base as int, w.selectors)]
}

/// Row `i` of an inner trace but for what every row holds: a row of the transcript, of a query, or
/// nothing.
pub open spec fn bare_row(w: SourceZ, l: WindowLayout, i: int) -> Seq<int> {
    let period = l.segment.m_period as int;
    let d = i - tr_z(w);
    if i < tr_z(w) {
        overlaid(
            zeros(l.segment.width as int),
            0,
            ft_trace(w.blocks)[i],
        )
    } else if i < used_z(w, l) {
        let q = d / period;
        segment_z(l.segment, w.tiles[q], w.felts[q], w.witness(q))[d % period]
    } else {
        zeros(l.segment.width as int)
    }
}

/// The trace of an inner proof.
pub open spec fn inner_trace(w: SourceZ, l: WindowLayout) -> Seq<Seq<int>> {
    with_held(Seq::new(l.height as nat, |i: int| bare_row(w, l, i)), all_held(w, l))
}

/// The window fits the layout: every query is within its rows, the rows within the height, and what
/// every row holds within the width.
pub open spec fn window_fits(w: SourceZ, l: WindowLayout) -> bool {
    let width = l.segment.width;
    &&& l.segment.m_period > 0
    &&& tr_z(w) <= usize::MAX
    &&& used_z(w, l) <= l.height
    &&& w.felts.len() == w.tiles.len()
    &&& w.witnesses is Some ==> w.witnesses->0.len() == w.tiles.len()
    &&& width >= 9
    &&& l.carry + 2 <= width
    &&& l.column_window ==> 4 <= w.window.len() && l.pw + w.window.len() + 2
        * l.segment.rounds <= width
    &&& l.sel_base + w.selectors.len() <= width
    &&& forall|q: int|
        0 <= q < w.tiles.len() ==> l.segment.fits(#[trigger] w.tiles[q], w.witness(q))
}

/// Whether a chunk is one of an inner trace.
pub open spec fn window_chunk(
    w: SourceZ,
    l: WindowLayout,
    range: MonolithTraceRowRange,
) -> bool {
    &&& range.width == l.segment.width
    &&& match range.kind {
        MonolithTracePart::Transcript => range.start_row + range.rows <= tr_z(w),
        MonolithTracePart::Query { q } => q < w.tiles.len() && range.start_row == tr_z(w) + q
            * l.segment.m_period && range.rows == l.segment.m_period,
        MonolithTracePart::Padding => used_z(w, l) <= range.start_row && range.start_row
            + range.rows <= l.height,
    }
}

proof fn lemma_np2_pos(n: int)
    ensures
        np2(n) >= 1,
    decreases n,
{
    if n > 1 {
        lemma_np2_pos((n + 1) / 2);
    }
}

proof fn lemma_squares_len(z: (int, int), n: nat)
    ensures
        squares_z(z, n).len() == n,
    decreases n,
{
    if n > 0 {
        lemma_squares_len(z, (n - 1) as nat);
    }
}

/// Puts what every row holds into the rows of a chunk.
fn fill_global_columns(t: &mut Trace, w: &MonolithTraceSource, l: &WindowLayout)
    requires
        window_fits(w@, *l),
        sized(cells(old(t)@), old(t).len() as int, l.segment.width as int),
    ensures
        cells(final(t)@) == with_held(cells(old(t)@), global_cells(w@, *l)),
        sized(cells(final(t)@), old(t).len() as int, l.segment.width as int),
        final(t).len() == old(t).len(),
{
    let ghost t0 = cells(t@);
    let alpha: Challenge = w.alpha_fri;
    let pair: Vec<u64> = vec![alpha.c0, alpha.c1];
    let ghost a = seq![(l.carry as int, seq![alpha@.0, alpha@.1])];
    let ghost b: Seq<(int, Seq<int>)> = if l.column_window {
        seq![(l.pw as int, window_z(w@.window, l.segment.rounds as int))]
    } else {
        Seq::empty()
    };
    assert(ints(pair@) =~= seq![alpha@.0, alpha@.1]);
    hold(t, l.carry, &pair, l.segment.width);
    let ghost t1 = cells(t@);
    if l.column_window {
        let window: Vec<u64> = window_schedule(w.pub_window, l.segment.rounds);
        proof {
            let z = w@.window;
            lemma_squares_len((z[2], z[3]), l.segment.rounds as nat);
            assert(ints(window@) == window_z(z, l.segment.rounds as int));
            assert(ints(window@).len() == window.len());
        }
        hold(t, l.pw, &window, l.segment.width);
    }
    proof {
        if !l.column_window {
            assert(with_held(t1, b) =~= t1);
        }
        assert(cells(t@) == with_held(t1, b));
        lemma_held_concat(t0, a, b);
        assert(global_cells(w@, *l) =~= a + b);
    }
}

/// The rows of a chunk but for what every row holds.
fn bare_chunk(
    w: &MonolithTraceSource,
    l: &WindowLayout,
    range: &MonolithTraceRowRange,
) -> (t: Trace)
    requires
        window_fits(w@, *l),
        window_chunk(w@, *l, *range),
    ensures
        t.len() == range.rows,
        sized(cells(t@), range.rows as int, l.segment.width as int),
        forall|i: int|
            0 <= i < range.rows ==> #[trigger] cells(t@)[i] == bare_row(
                w@,
                *l,
                range.start_row + i,
            ),
{
    match range.kind {
        MonolithTracePart::Transcript => {
            proof {
                lemma_np2_pos(w@.blocks.len() as int);
            }
            let ft: Trace = ft_build_trace(w.block_inputs);
            let ghost rows = ft_trace(w@.blocks);
            let n: usize = range.rows;
            let mut t: Trace = blank_rows(n, l.segment.width);
            proof {
                lemma_ft(w@.blocks);
                assert(cells(ft@) == rows);
                assert forall|i: int| 0 <= i < rows.len() implies (#[trigger] ft@[i]).len() == 8 by {
                    assert(cells(ft@)[i].len() == 8);
                }
            }
            for i in 0..n
                invariant
                    n == range.rows,
                    l.segment.width >= 9,
                    cells(ft@) == rows,
                    rows == ft_trace(w@.blocks),
                    range.start_row + n <= rows.len(),
                    tr_z(w@) == rows.len(),
                    forall|i: int| 0 <= i < rows.len() ==> (#[trigger] ft@[i]).len() == 8,
                    t.len() == n,
                    sized(cells(t@), n as int, l.segment.width as int),
                    forall|j: int|
                        0 <= j < n ==> #[trigger] cells(t@)[j] == (if j < i {
                            bare_row(w@, *l, range.start_row + j)
                        } else {
                            zeros(l.segment.width as int)
                        }),
            {
                assert(cells(ft@).len() == ft.len());
                let k: usize = range.start_row + i;
                assert(cells(ft@)[k as int] == ints(ft@[k as int]@));
                assert(cells(t@)[i as int].len() == l.segment.width);
                lay(&mut t, i, 0, &ft[k]);
            }
            t
        },
        MonolithTracePart::Query { q } => {
            let v: &TileOpenings = w.per_query[q];
            assert(l.segment.fits(w@.tiles[q as int], w@.witness(q as int)));
            let salts: Option<&HidingWitness> = match &w.hiding {
                Some(h) => Some(h[q]),
                None => None,
            };
            let t: Trace = fill_monolith_query_segment(&l.segment, v, w.index_felts[q], salts);
            proof {
                let period = l.segment.m_period as int;
                assert forall|i: int| 0 <= i < range.rows implies #[trigger] cells(t@)[i] == bare_row(
                    w@,
                    *l,
                    range.start_row + i,
                ) by {
                    let d = range.start_row + i - tr_z(w@);
                    vstd::arithmetic::div_mod::lemma_fundamental_div_mod_converse(
                        d,
                        period,
                        q as int,
                        i,
                    );
                    assert(q * period + period <= w.per_query.len() * period) by (nonlinear_arith)
                        requires
                            q + 1 <= w.per_query.len(),
                            period > 0,
                    ;
                }
            }
            t
        },
        MonolithTracePart::Padding => blank_rows(range.rows, l.segment.width),
    }
}

/// A transcript has as many rows as its blocks, padded to a power of two, have, each of the state.
proof fn lemma_ft(ins: Seq<Seq<int>>)
    requires
        forall|b: int| 0 <= b < ins.len() ==> (#[trigger] ins[b]).len() == 8,
    ensures
        ft_trace(ins).len() == BLOCK * np2(ins.len() as int),
        forall|i: int| 0 <= i < ft_trace(ins).len() ==> (#[trigger] ft_trace(ins)[i]).len() == 8,
{
    lemma_np2_pos(ins.len() as int);
    assert forall|i: int| 0 <= i < ft_trace(ins).len() implies (#[trigger] ft_trace(ins)[i]).len()
        == 8 by {
        crate::monolith::phase4a_complete::lemma_ft_input_len(ins, (i / 32) as nat);
        crate::poseidon2::lemma_perm_row_bound(ft_inputs(ins)[i / 32], (i % 32) as nat);
    }
}

/// Fills one chunk of the trace of an inner proof without the others.
pub fn emit_range_with_selector(
    w: &MonolithTraceSource,
    l: &WindowLayout,
    range: &MonolithTraceRowRange,
) -> (t: Trace)
    requires
        window_fits(w@, *l),
        window_chunk(w@, *l, *range),
    ensures
        cells(t@) == inner_trace(w@, *l).subrange(
            range.start_row as int,
            range.start_row + range.rows,
        ),
        t.len() == range.rows,
        sized(cells(t@), range.rows as int, l.segment.width as int),
{
    let mut t: Trace = bare_chunk(w, l, range);
    let ghost t0 = cells(t@);
    fill_global_columns(&mut t, w, l);
    hold(&mut t, l.sel_base, w.selector_window, l.segment.width);
    proof {
        let s = seq![(l.sel_base as int, w@.selectors)];
        lemma_held_concat(t0, global_cells(w@, *l), s);
        let whole = inner_trace(w@, *l).subrange(
            range.start_row as int,
            range.start_row + range.rows,
        );
        lemma_chunk_end(w@, *l, *range);
        assert forall|i: int| 0 <= i < range.rows implies #[trigger] cells(t@)[i] == whole[i] by {
            assert(t0[i] == bare_row(w@, *l, range.start_row + i));
        }
        assert(cells(t@) =~= whole);
    }
    t
}

/// A chunk ends within the trace.
pub proof fn lemma_chunk_end(
    w: SourceZ,
    l: WindowLayout,
    range: MonolithTraceRowRange,
)
    requires
        window_fits(w, l),
        window_chunk(w, l, range),
    ensures
        range.start_row + range.rows <= l.height,
{
    let n = w.tiles.len() as int;
    let period = l.segment.m_period as int;
    assert(n * period >= 0) by (nonlinear_arith)
        requires
            n >= 0,
            period > 0,
    ;
    match range.kind {
        MonolithTracePart::Query { q } => {
            assert(q * period + period <= n * period) by (nonlinear_arith)
                requires
                    q + 1 <= n,
                    period > 0,
            ;
        },
        _ => {},
    }
}

/// The chunks of an inner trace.
pub fn window_ranges(w: &MonolithTraceSource, l: &WindowLayout) -> (r: Vec<
    MonolithTraceRowRange,
>)
    requires
        window_fits(w@, *l),
    ensures
        ranges_z(r@) == row_ranges_z(
            tr_z(w@),
            w.per_query.len() as int,
            l.segment.m_period as int,
            l.height as int,
            l.segment.width as int,
        ),
        forall|i: int| 0 <= i < r.len() ==> window_chunk(w@, *l, #[trigger] r@[i]),
{
    proof {
        lemma_np2_pos(w@.blocks.len() as int);
    }
    let tr: usize = BLOCK * next_power_of_two(w.block_inputs.len());
    let r: Vec<MonolithTraceRowRange> = trace_row_ranges(
        tr,
        w.per_query.len(),
        l.segment.m_period,
        l.height,
        l.segment.width,
    );
    proof {
        let z = row_ranges_z(
            tr_z(w@),
            w.per_query.len() as int,
            l.segment.m_period as int,
            l.height as int,
            l.segment.width as int,
        );
        assert(ranges_z(r@) == z);
        assert forall|i: int| 0 <= i < r.len() implies window_chunk(w@, *l, #[trigger] r@[i]) by {
            assert(z[i] == ranges_z(r@)[i]);
            assert(z[i] == (kind_z(r@[i].kind), r@[i].start_row as int, r@[i].rows as int));
        }
    }
    r
}

/// The whole trace of an inner proof, where its elements are within a limit.
pub fn materialize_trace_values(
    w: &MonolithTraceSource,
    l: &WindowLayout,
    limit: usize,
) -> (r: Result<Trace, AggregationError>)
    requires
        window_fits(w@, *l),
    ensures
        match estimate_z("hiding inner monolith trace", l.height, l.segment.width, limit) {
            Err(e) => r == Err::<Trace, _>(e),
            Ok(s) => if s.within_limit {
                r is Ok && cells(r->Ok_0@) == inner_trace(w@, *l)
            } else {
                r == Err::<Trace, _>(over_limit("hiding inner monolith trace", s))
            },
        },
{
    match checked_trace_felts_with_limit(
        "hiding inner monolith trace",
        l.height,
        l.segment.width,
        limit,
    ) {
        Err(e) => Err(e),
        Ok(_) => Ok(emit_all_ranges(w, l)),
    }
}

/// The whole trace of an inner proof, chunk by chunk.
pub fn emit_all_ranges(w: &MonolithTraceSource, l: &WindowLayout) -> (t: Trace)
    requires
        window_fits(w@, *l),
    ensures
        cells(t@) == inner_trace(w@, *l),
        sized(cells(t@), l.height as int, l.segment.width as int),
        l.height > 0,
{
    let ranges: Vec<MonolithTraceRowRange> = window_ranges(w, l);
    let ghost z = ranges_z(ranges@);
    let n: usize = ranges.len();
    let mut t: Trace = Vec::new();
    let ghost whole = inner_trace(w@, *l);
    assert(cells(t@) =~= whole.take(0));
    proof {
        lemma_np2_pos(w@.blocks.len() as int);
        lemma_used(w@, *l);
        assert(z.len() == n);
        assert(n > 0);
    }
    for i in 0..n
        invariant
            n == ranges.len(),
            window_fits(w@, *l),
            whole == inner_trace(w@, *l),
            z == ranges_z(ranges@),
            z == row_ranges_z(
                tr_z(w@),
                w.per_query.len() as int,
                l.segment.m_period as int,
                l.height as int,
                l.segment.width as int,
            ),
            tr_z(w@) > 0,
            forall|k: int| 0 <= k < n ==> window_chunk(w@, *l, #[trigger] ranges@[k]),
            t.len() == (if i == 0 {
                0int
            } else {
                z[i - 1].1 + z[i - 1].2
            }),
            cells(t@) == whole.take(t.len() as int),
            sized(cells(t@), t.len() as int, l.segment.width as int),
    {
        let mut rows: Trace = emit_range_with_selector(w, l, &ranges[i]);
        let ghost (before, more) = (cells(t@), cells(rows@));
        proof {
            law_ranges_cover(
                tr_z(w@),
                w.per_query.len() as int,
                l.segment.m_period as int,
                l.height as int,
                l.segment.width as int,
                i as int,
            );
            assert(z[i as int] == (
                kind_z(ranges@[i as int].kind),
                ranges@[i as int].start_row as int,
                ranges@[i as int].rows as int,
            ));
            lemma_chunk_end(w@, *l, ranges@[i as int]);
        }
        let ghost (a, b) = (t@, rows@);
        t.append(&mut rows);
        proof {
            assert(t@ =~= a + b);
            assert(cells(t@) =~= before + more);
            assert(cells(t@) =~= whole.take(t.len() as int));
        }
    }
    proof {
        law_ranges_cover(
            tr_z(w@),
            w.per_query.len() as int,
            l.segment.m_period as int,
            l.height as int,
            l.segment.width as int,
            n - 1,
        );
        assert(whole.take(l.height as int) =~= whole);
    }
    t
}

pub proof fn lemma_used(w: SourceZ, l: WindowLayout)
    requires
        window_fits(w, l),
    ensures
        tr_z(w) > 0,
        row_ranges_z(
            tr_z(w),
            w.tiles.len() as int,
            l.segment.m_period as int,
            l.height as int,
            l.segment.width as int,
        ).len() > 0,
{
    lemma_np2_pos(w.blocks.len() as int);
}

/// The shape of an inner proof, from its replay, its terms and the height of its cap.
pub fn replay_shape(replay: &Replay, n_terms: usize, cap_height: usize) -> (r: InnerShape)
    ensures
        r.counts@ == replay.counts@,
        r.binds@ == replay.binds@,
        r.index_binds@ == replay.index_binds@,
        r.n_terms == n_terms,
        r.cap_height == cap_height,
{
    let counts: Vec<u8> = replay.counts.clone();
    let binds: Vec<usize> = replay.binds.clone();
    let index_binds: Vec<(usize, usize)> = copy_pairs(&replay.index_binds);
    assert(counts@ =~= replay.counts@);
    assert(binds@ =~= replay.binds@);
    InnerShape { counts, binds, index_binds, n_terms, cap_height }
}

fn copy_pairs(v: &Vec<(usize, usize)>) -> (r: Vec<(usize, usize)>)
    ensures
        r@ == v@,
{
    let n: usize = v.len();
    let mut r: Vec<(usize, usize)> = Vec::new();
    for i in 0..n
        invariant
            n == v.len(),
            r@ == v@.take(i as int),
    {
        let (a, b) = v[i];
        r.push((a, b));
        assert(r@ =~= v@.take(i + 1));
    }
    assert(v@.take(n as int) =~= v@);
    r
}

/// The traces of inner proofs.
pub open spec fn inner_traces(made: Seq<MonolithTraceSource>, wl: WindowLayout) -> Seq<Seq<Seq<int>>> {
    Seq::new(made.len(), |i: int| inner_trace(made[i]@, wl))
}

/// Whether inner traces are of an instance's size.
pub open spec fn same_size(wl: WindowLayout, l: FoldLayout) -> bool {
    wl.height == l.inst_h && wl.segment.width == l.fused_w
}

/// Traces of one size are all of an instance's size where the first is.
proof fn lemma_same_size(windows: Seq<Seq<Seq<int>>>, wl: WindowLayout, l: FoldLayout)
    requires
        windows.len() > 0,
        wl.height > 0,
        forall|i: int|
            0 <= i < windows.len() ==> sized(
                #[trigger] windows[i],
                wl.height as int,
                wl.segment.width as int,
            ),
    ensures
        windows_match(l, windows) == same_size(wl, l),
{
    let w = windows[0];
    assert(sized(w, wl.height as int, wl.segment.width as int));
    if windows_match(l, windows) {
        assert(window_matches(l, w));
        assert(w[0].len() == wl.segment.width);
    }
    if same_size(wl, l) {
        assert forall|i: int| 0 <= i < windows.len() implies window_matches(
            l,
            #[trigger] windows[i],
        ) by {
            assert(sized(windows[i], wl.height as int, wl.segment.width as int));
        }
    }
}

/// Builds the aggregate trace of inner proofs from the sources of their windows: each is emitted chunk
/// by chunk, and they are laid one below the other.
pub fn build_instance_of(
    shapes: &Vec<InnerShape>,
    made: &Vec<MonolithTraceSource>,
    wl: &WindowLayout,
    l: &FoldLayout,
    sources: &Vec<BlockSource>,
    pvs: &Vec<Vec<u64>>,
    dom: u64,
    digests: &Vec<Digest>,
    limit: Option<usize>,
) -> (r: Result<AggregateTrace, AggregationError>)
    requires
        shapes.len() == pvs.len(),
        forall|i: int| 0 <= i < made.len() ==> window_fits((#[trigger] made@[i])@, *wl),
        pvs.len() > 0 ==> l.fits(sources.len() as int, pvs.len() as int),
        parts_ok(made.len() as int, sources@, pvs@),
    ensures
        ({
            let windows = inner_traces(made@, *wl);
            let fail = aggregate_fail(
                shapes@,
                same_size(*wl, *l),
                *l,
                sources@,
                pvs@,
                dom as int,
                digests@,
                limit,
            );
            match r {
                Err(e) => fail == Some(e),
                Ok(t) => fail is None && aggregate_is(t, *l, windows, sources@, pvs@, dom as int),
            }
        }),
{
    let n: usize = made.len();
    let mut traces: Vec<Trace> = Vec::new();
    for i in 0..n
        invariant
            n == made.len(),
            forall|k: int| 0 <= k < n ==> window_fits((#[trigger] made@[k])@, *wl),
            traces.len() == i,
            i > 0 ==> wl.height > 0,
            forall|k: int|
                0 <= k < i ==> cells((#[trigger] traces@[k])@) == inner_trace(made@[k]@, *wl)
                    && sized(cells(traces@[k]@), wl.height as int, wl.segment.width as int),
    {
        assert(window_fits(made@[i as int]@, *wl));
        traces.push(emit_all_ranges(&made[i], wl));
    }
    proof {
        let windows = grids(traces@);
        assert(windows =~= inner_traces(made@, *wl));
        if n > 0 {
            assert forall|i: int| 0 <= i < windows.len() implies sized(
                #[trigger] windows[i],
                wl.height as int,
                wl.segment.width as int,
            ) by {
                assert(windows[i] == cells(traces@[i]@));
            }
            lemma_same_size(windows, *wl, *l);
        }
    }
    build_instance(shapes, &traces, l, sources, pvs, dom, digests, limit)
}

} // verus!
