//! The aggregate trace written to a store, chunk by chunk.
use super::fault::LayoutFault;
use super::emit::{
    emit_range_with_selector, inner_trace, inner_traces, lemma_chunk_end, lemma_used, same_size,
    tr_z,
    window_chunk, window_fits, window_ranges, MonolithTraceSource, WindowLayout,
};
use super::options::{AggregationError};
use super::tiling::{
    aggregate_fail, aggregate_is, all_same, chain_input, chunks_cover, check_tx_root, emit_chunks,
    oracle_root, overlaid_z, parts_ok, root_at, rows_per_chunk, shapes_agree, statement_chain,
    tiled_row, widen_row, widened, AggregateTrace, BlockSource, FoldLayout, InnerShape,
};
use super::window::overlay;
use crate::expr::{cells, Trace};
use crate::field::ints;
use crate::merkle::{join, merge, Digest};
use crate::monolith::cells::zeros;
use crate::monolith::geometry::{
    kind_z, law_ranges_cover, ranges_z, row_ranges_z, MonolithTracePart, MonolithTraceRowRange,
};
use crate::monolith::segment::blank_rows;
use crate::poseidon2::{native_steps, perm_row, BLOCK};
use vstd::prelude::*;

verus! {

/// What an aggregate that is written to a store is refused for.
pub open spec fn store_fail(
    shapes: Seq<InnerShape>,
    wl: WindowLayout,
    l: FoldLayout,
    sources: Seq<BlockSource>,
    pvs: Seq<Vec<u64>>,
    dom: int,
    digests: Seq<Digest>,
) -> Option<AggregationError> {
    if shapes.len() == 0 {
        Some(AggregationError::Empty)
    } else if !all_same(shapes) {
        Some(AggregationError::MismatchedInnerShape)
    } else if l.fold_block * BLOCK < l.tr + l.n_queries * l.m_period {
        Some(AggregationError::TraceLayout(LayoutFault::FoldOverlap))
    } else if l.height * l.fold_w > usize::MAX {
        Some(
            AggregationError::TraceLayout(
                LayoutFault::Overflow { what: "production aggregate store" },
            ),
        )
    } else if !same_size(wl, l) {
        Some(AggregationError::MismatchedInnerShape)
    } else if root_at(dom, sources, pvs, pvs.len()) != oracle_root(digests, digests.len()) {
        Some(AggregationError::TraceLayout(LayoutFault::TxRoot))
    } else {
        None
    }
}

/// The rows are the same but for those from `lo` up to `hi`.
spec fn kept(a: Seq<Vec<u64>>, b: Seq<Vec<u64>>, lo: int, hi: int) -> bool {
    &&& a.len() == b.len()
    &&& forall|x: int| 0 <= x < a.len() && !(lo <= x < hi) ==> #[trigger] b[x] == a[x]
}

/// The rows from `lo` up to `hi` are those of a window that starts at `base`, widened, with the root.
spec fn written(
    rows: Seq<Vec<u64>>,
    base: int,
    l: FoldLayout,
    window: Seq<Seq<int>>,
    root: Seq<int>,
    lo: int,
    hi: int,
) -> bool {
    forall|x: int|
        base + lo <= x < base + hi ==> ints((#[trigger] rows[x])@) == widened(
            l,
            window[x - base],
            root,
            None,
        )
}

/// A window has the size of an instance, and the columns of the root and of the chain are there.
spec fn sits(wl: WindowLayout, l: FoldLayout) -> bool {
    &&& same_size(wl, l)
    &&& l.fused_w <= l.fold_w
    &&& l.af_root + 4 <= l.fold_w
    &&& l.af_p + 8 <= l.fold_w
}

/// A chunk of a range of a window is one of the window.
proof fn lemma_chunk(
    w: super::emit::SourceZ,
    wl: WindowLayout,
    range: MonolithTraceRowRange,
    chunks: Seq<MonolithTraceRowRange>,
    c: int,
)
    requires
        window_fits(w, wl),
        window_chunk(w, wl, range),
        chunks_cover(chunks, range, rows_per_chunk(range, wl.segment.width as int)),
        range.rows > 0 ==> (chunks.len() - 1) * rows_per_chunk(range, wl.segment.width as int)
            < range.rows,
        range.rows == 0 ==> chunks.len() == 0,
        0 <= c < chunks.len(),
    ensures
        window_chunk(w, wl, chunks[c]),
        range.start_row <= chunks[c].start_row,
        chunks[c].start_row + chunks[c].rows <= range.start_row + range.rows,
{
    let per = rows_per_chunk(range, wl.segment.width as int);
    let n = chunks.len() as int;
    assert(chunks[c].rows > 0);
    assert(0 <= c * per) by (nonlinear_arith)
        requires
            0 <= c,
            0 <= per,
    ;
    match range.kind {
        MonolithTracePart::Query { .. } => {
            assert(n == 1) by (nonlinear_arith)
                requires
                    (n - 1) * per < per,
                    per > 0,
                    n >= 1,
            ;
            assert(c == 0);
            assert(0 * per == 0);
        },
        _ => {},
    }
}

/// Writes the rows of a chunk.
fn write_chunk(rows: &mut Trace, from: usize, t: &Trace, l: &FoldLayout, root: &Digest)
    requires
        from + t.len() <= old(rows).len(),
        forall|k: int| 0 <= k < t.len() ==> (#[trigger] t@[k]).len() == l.fused_w,
        l.fused_w <= l.fold_w,
        l.af_root + 4 <= l.fold_w,
        l.af_p + 8 <= l.fold_w,
    ensures
        kept(old(rows)@, final(rows)@, from as int, from + t.len()),
        forall|x: int|
            from <= x < from + t.len() ==> ints((#[trigger] final(rows)@[x])@) == widened(
                *l,
                cells(t@)[x - from],
                ints(root@),
                None,
            ),
{
    let n: usize = t.len();
    let ghost before = rows@;
    for k in 0..n
        invariant
            n == t.len(),
            from + n <= before.len(),
            rows.len() == before.len(),
            forall|k: int| 0 <= k < t.len() ==> (#[trigger] t@[k]).len() == l.fused_w,
            l.fused_w <= l.fold_w,
            l.af_root + 4 <= l.fold_w,
            l.af_p + 8 <= l.fold_w,
            kept(before, rows@, from as int, from + k),
            forall|x: int|
                from <= x < from + k ==> ints((#[trigger] rows@[x])@) == widened(
                    *l,
                    cells(t@)[x - from],
                    ints(root@),
                    None,
                ),
    {
        assert(t@[k as int].len() == l.fused_w);
        let row: Vec<u64> = widen_row(l, &t[k], root, None);
        assert(cells(t@)[k as int] == ints(t@[k as int]@));
        rows.set(from + k, row);
    }
}

/// Writes a range of a window, chunk by chunk.
fn write_range(
    rows: &mut Trace,
    base: usize,
    w: &MonolithTraceSource,
    wl: &WindowLayout,
    l: &FoldLayout,
    root: &Digest,
    range: &MonolithTraceRowRange,
)
    requires
        window_fits(w@, *wl),
        window_chunk(w@, *wl, *range),
        sits(*wl, *l),
        base + l.inst_h <= old(rows).len(),
    ensures
        kept(
            old(rows)@,
            final(rows)@,
            base + range.start_row,
            base + range.start_row + range.rows,
        ),
        written(
            final(rows)@,
            base as int,
            *l,
            inner_trace(w@, *wl),
            ints(root@),
            range.start_row as int,
            range.start_row + range.rows,
        ),
{
    proof {
        lemma_chunk_end(w@, *wl, *range);
    }
    let chunks: Vec<MonolithTraceRowRange> = emit_chunks(range, wl.segment.width);
    let n: usize = chunks.len();
    let ghost before = rows@;
    let ghost per = rows_per_chunk(*range, wl.segment.width as int);
    let ghost window = inner_trace(w@, *wl);
    let ghost start = range.start_row as int;
    let ghost mut done: int = 0;
    proof {
        assert(0 * per == 0);
    }
    for c in 0..n
        invariant
            n == chunks.len(),
            window_fits(w@, *wl),
            window_chunk(w@, *wl, *range),
            sits(*wl, *l),
            base + l.inst_h <= before.len(),
            start == range.start_row,
            start + range.rows <= l.inst_h,
            window == inner_trace(w@, *wl),
            per == rows_per_chunk(*range, wl.segment.width as int),
            chunks_cover(chunks@, *range, per),
            range.rows == 0 ==> n == 0,
            range.rows > 0 ==> (n - 1) * per < range.rows <= n * per,
            done == (if c * per < range.rows {
                c * per
            } else {
                range.rows as int
            }),
            0 <= done <= range.rows,
            rows.len() == before.len(),
            kept(before, rows@, base + start, base + start + done),
            written(rows@, base as int, *l, window, ints(root@), start, start + done),
    {
        proof {
            lemma_chunk(w@, *wl, *range, chunks@, c as int);
            assert((c + 1) * per == c * per + per) by (nonlinear_arith);
            assert(chunks@[c as int].rows > 0);
        }
        let chunk: &MonolithTraceRowRange = &chunks[c];
        let t: Trace = emit_range_with_selector(w, wl, chunk);
        proof {
            assert forall|k: int| 0 <= k < t.len() implies (#[trigger] t@[k]).len() == l.fused_w by {
                assert(cells(t@)[k].len() == wl.segment.width);
            }
            assert(chunk.start_row == start + done);
        }
        let ghost mid = rows@;
        write_chunk(rows, base + chunk.start_row, &t, l, root);
        proof {
            let more = done + chunk.rows;
            assert forall|x: int|
                base + start <= x < base + start + more implies ints((#[trigger] rows@[x])@)
                == widened(*l, window[x - base], ints(root@), None) by {
                if x < base + start + done {
                    assert(rows@[x] == mid[x]);
                } else {
                    assert(cells(t@)[x - (base + chunk.start_row)] == window[x - base]);
                }
            }
            done = more;
        }
    }
    proof {
        assert(done == range.rows);
    }
}

/// Writes the rows of a window, range by range.
fn write_window(
    rows: &mut Trace,
    base: usize,
    w: &MonolithTraceSource,
    wl: &WindowLayout,
    l: &FoldLayout,
    root: &Digest,
)
    requires
        window_fits(w@, *wl),
        sits(*wl, *l),
        base + l.inst_h <= old(rows).len(),
    ensures
        kept(old(rows)@, final(rows)@, base as int, base + l.inst_h),
        written(
            final(rows)@,
            base as int,
            *l,
            inner_trace(w@, *wl),
            ints(root@),
            0,
            l.inst_h as int,
        ),
{
    let ranges: Vec<MonolithTraceRowRange> = window_ranges(w, wl);
    let n: usize = ranges.len();
    let ghost z = ranges_z(ranges@);
    let ghost before = rows@;
    let ghost window = inner_trace(w@, *wl);
    let ghost mut done: int = 0;
    proof {
        lemma_used(w@, *wl);
    }
    for i in 0..n
        invariant
            n == ranges.len(),
            window_fits(w@, *wl),
            sits(*wl, *l),
            base + l.inst_h <= before.len(),
            window == inner_trace(w@, *wl),
            z == ranges_z(ranges@),
            z == row_ranges_z(
                tr_z(w@),
                w.per_query.len() as int,
                wl.segment.m_period as int,
                wl.height as int,
                wl.segment.width as int,
            ),
            tr_z(w@) > 0,
            forall|k: int| 0 <= k < n ==> window_chunk(w@, *wl, #[trigger] ranges@[k]),
            done == (if i == 0 {
                0int
            } else {
                z[i - 1].1 + z[i - 1].2
            }),
            0 <= done <= l.inst_h,
            kept(before, rows@, base as int, base + done),
            written(rows@, base as int, *l, window, ints(root@), 0, done),
    {
        proof {
            law_ranges_cover(
                tr_z(w@),
                w.per_query.len() as int,
                wl.segment.m_period as int,
                wl.height as int,
                wl.segment.width as int,
                i as int,
            );
            assert(z[i as int] == (
                kind_z(ranges@[i as int].kind),
                ranges@[i as int].start_row as int,
                ranges@[i as int].rows as int,
            ));
            lemma_chunk_end(w@, *wl, ranges@[i as int]);
        }
        let ghost mid = rows@;
        write_range(rows, base, w, wl, l, root, &ranges[i]);
        proof {
            let more = done + ranges@[i as int].rows;
            assert forall|x: int| base <= x < base + more implies ints((#[trigger] rows@[x])@)
                == widened(*l, window[x - base], ints(root@), None) by {
                if x < base + done {
                    assert(rows@[x] == mid[x]);
                }
            }
            done = more;
        }
    }
    proof {
        law_ranges_cover(
            tr_z(w@),
            w.per_query.len() as int,
            wl.segment.m_period as int,
            wl.height as int,
            wl.segment.width as int,
            n - 1,
        );
    }
}

/// A row of the chain's blocks with its step, any other row as it was.
spec fn stepped(l: FoldLayout, row: Seq<int>, inputs: Seq<[u64; 8]>, n: int, r: int) -> Seq<int> {
    let b = r / 32 - l.fold_block;
    if 0 <= b < n {
        overlaid_z(row, l.af_p as int, perm_row(ints(inputs[b]@), (r % 32) as nat))
    } else {
        row
    }
}

/// Writes the steps of the chain over the rows of an instance.
fn write_chain(rows: &mut Trace, base: usize, l: &FoldLayout, inputs: &Vec<[u64; 8]>)
    requires
        base + l.inst_h <= old(rows).len(),
        (l.fold_block + inputs.len()) * BLOCK <= l.inst_h,
        l.af_p + 8 <= l.fold_w,
        forall|x: int| base <= x < base + l.inst_h ==> (#[trigger] old(rows)@[x]).len() == l.fold_w,
    ensures
        kept(old(rows)@, final(rows)@, base as int, base + l.inst_h),
        forall|x: int|
            base <= x < base + l.inst_h ==> ints((#[trigger] final(rows)@[x])@) == stepped(
                *l,
                ints(old(rows)@[x]@),
                inputs@,
                inputs.len() as int,
                x - base,
            ),
{
    let n: usize = inputs.len();
    let ghost before = rows@;
    for b in 0..n
        invariant
            n == inputs.len(),
            base + l.inst_h <= before.len(),
            (l.fold_block + n) * BLOCK <= l.inst_h,
            l.af_p + 8 <= l.fold_w,
            rows.len() == before.len(),
            forall|x: int| base <= x < base + l.inst_h ==> (#[trigger] before[x]).len() == l.fold_w,
            kept(before, rows@, base as int, base + l.inst_h),
            forall|x: int|
                base <= x < base + l.inst_h ==> ints((#[trigger] rows@[x])@) == stepped(
                    *l,
                    ints(before[x]@),
                    inputs@,
                    b as int,
                    x - base,
                ),
    {
        let steps: Vec<[u64; 8]> = native_steps(inputs[b]);
        let first: usize = (l.fold_block + b) * BLOCK;
        let ghost mid = rows@;
        for k in 0..BLOCK
            invariant
                b < n,
                n == inputs.len(),
                base + l.inst_h <= before.len(),
                (l.fold_block + n) * BLOCK <= l.inst_h,
                first == (l.fold_block + b) * BLOCK,
                l.af_p + 8 <= l.fold_w,
                rows.len() == before.len(),
                mid.len() == before.len(),
                steps.len() == BLOCK,
                forall|j: int|
                    0 <= j < BLOCK ==> ints((#[trigger] steps@[j])@) == perm_row(
                        ints(inputs@[b as int]@),
                        j as nat,
                    ),
                forall|x: int|
                    base <= x < base + l.inst_h ==> (#[trigger] before[x]).len() == l.fold_w,
                forall|x: int|
                    base <= x < base + l.inst_h ==> ints((#[trigger] mid[x])@) == stepped(
                        *l,
                        ints(before[x]@),
                        inputs@,
                        b as int,
                        x - base,
                    ),
                kept(mid, rows@, base + first, base + first + k),
                forall|x: int|
                    base + first <= x < base + first + k ==> ints((#[trigger] rows@[x])@)
                        == stepped(*l, ints(before[x]@), inputs@, b + 1, x - base),
        {
            let at: usize = base + first + k;
            let s: [u64; 8] = steps[k];
            let cells: Vec<u64> = vec![s[0], s[1], s[2], s[3], s[4], s[5], s[6], s[7]];
            assert(ints(cells@) =~= ints(s@));
            proof {
                assert(rows@[at as int] == mid[at as int]);
                let r = at - base;
                assert(r / 32 == l.fold_block + b && r % 32 == k);
                assert(ints(mid[at as int]@) == ints(before[at as int]@));
                assert(ints(mid[at as int]@).len() == mid[at as int].len());
                assert(ints(before[at as int]@).len() == before[at as int].len());
            }
            let mut row: Vec<u64> = super::window::copy_row(&rows[at]);
            overlay(&mut row, l.af_p, &cells);
            assert(ints(row@) =~= overlaid_z(
                ints(before[at as int]@),
                l.af_p as int,
                perm_row(ints(inputs@[b as int]@), k as nat),
            ));
            rows.set(at, row);
        }
        proof {
            assert forall|x: int| base <= x < base + l.inst_h implies ints((#[trigger] rows@[x])@)
                == stepped(*l, ints(before[x]@), inputs@, b + 1, x - base) by {
                if !(base + first <= x < base + first + 32) {
                    assert(rows@[x] == mid[x]);
                    let r = x - base;
                    assert(r / 32 - l.fold_block != b);
                }
            }
        }
    }
}

/// The row of an instance from its window's row and its chain.
proof fn lemma_tiled(
    l: FoldLayout,
    windows: Seq<Seq<Seq<int>>>,
    dom: int,
    sources: Seq<BlockSource>,
    pvs: Seq<Vec<u64>>,
    inputs: Seq<[u64; 8]>,
    i: int,
    r: int,
)
    requires
        0 <= r,
        inputs.len() == sources.len() + 1,
        forall|b: int|
            0 <= b <= sources.len() ==> ints((#[trigger] inputs[b])@) == chain_input(
                dom,
                sources,
                pvs,
                i,
                b,
            ),
    ensures
        tiled_row(l, windows, dom, sources, pvs, i, r) == stepped(
            l,
            widened(l, windows[i][r], root_at(dom, sources, pvs, i as nat), None),
            inputs,
            inputs.len() as int,
            r,
        ),
{
    let b = r / 32 - l.fold_block;
    if 0 <= b <= sources.len() {
        assert(ints(inputs[b]@) == chain_input(dom, sources, pvs, i, b));
    }
}

/// Writes an instance: its window, and its chain over it. Gives the root behind it.
fn write_instance(
    rows: &mut Trace,
    w: &MonolithTraceSource,
    wl: &WindowLayout,
    l: &FoldLayout,
    sources: &Vec<BlockSource>,
    pvs: &Vec<Vec<u64>>,
    dom: u64,
    i: usize,
    root: Digest,
    Ghost(windows): Ghost<Seq<Seq<Seq<int>>>>,
) -> (next: Digest)
    requires
        i < pvs.len(),
        windows[i as int] == inner_trace(w@, *wl),
        window_fits(w@, *wl),
        sits(*wl, *l),
        l.fits(sources.len() as int, pvs.len() as int),
        parts_ok(pvs.len() as int, sources@, pvs@),
        ints(root@) == root_at(dom as int, sources@, pvs@, i as nat),
        old(rows).len() == l.height,
        (i + 1) * l.inst_h <= l.height,
    ensures
        ints(next@) == root_at(dom as int, sources@, pvs@, (i + 1) as nat),
        kept(old(rows)@, final(rows)@, i * l.inst_h, (i + 1) * l.inst_h),
        forall|x: int|
            i * l.inst_h <= x < (i + 1) * l.inst_h ==> ints((#[trigger] final(rows)@[x])@)
                == tiled_row(
                *l,
                windows,
                dom as int,
                sources@,
                pvs@,
                i as int,
                x - i * l.inst_h,
            ),
{
    proof {
        assert((i + 1) * l.inst_h == i * l.inst_h + l.inst_h) by (nonlinear_arith);
        assert(0 <= i * l.inst_h) by (nonlinear_arith);
        assert forall|b: int, k: int|
            #![trigger sources@[b]@[k]]
            0 <= b < sources.len() && 0 <= k < 4 && sources@[b]@[k] is Some
            implies sources@[b]@[k]->0 < pvs@[i as int].len() by {
            assert(pvs@[i as int] == pvs@[i as int]);
        }
    }
    let base: usize = i * l.inst_h;
    let (mut inputs, digest) = statement_chain(dom, sources, &pvs[i]);
    inputs.push(join(root, digest));
    let ghost n = sources.len() as int;
    assert forall|b: int| 0 <= b <= n implies ints((#[trigger] inputs@[b])@) == chain_input(
        dom as int,
        sources@,
        pvs@,
        i as int,
        b,
    ) by {}
    write_window(rows, base, w, wl, l, &root);
    let ghost mid = rows@;
    assert forall|x: int| base <= x < base + l.inst_h implies (#[trigger] rows@[x]).len() == l.fold_w by {
        assert(ints(rows@[x]@).len() == l.fold_w);
    }
    write_chain(rows, base, l, &inputs);
    proof {
        assert forall|x: int| base <= x < base + l.inst_h implies ints((#[trigger] rows@[x])@)
            == tiled_row(*l, windows, dom as int, sources@, pvs@, i as int, x - base) by {
            lemma_tiled(
                *l,
                windows,
                dom as int,
                sources@,
                pvs@,
                inputs@,
                i as int,
                x - base,
            );
            assert(ints(mid[x]@) == widened(*l, windows[i as int][x - base], ints(root@), None));
        }
    }
    merge(root, digest)
}

/// Builds the aggregate trace of hiding inner proofs in a store: checks that they have one shape, that
/// the chain stands behind the queries and that the store has a size; then writes the windows, each
/// emitted chunk by chunk, one below the other with the chains of their statements over them; and checks
/// the root against the digests of the statements. Nothing but a chunk is held beside the store.
pub fn build_production_store_instance(
    shapes: &Vec<InnerShape>,
    made: &Vec<MonolithTraceSource>,
    wl: &WindowLayout,
    l: &FoldLayout,
    sources: &Vec<BlockSource>,
    pvs: &Vec<Vec<u64>>,
    dom: u64,
    digests: &Vec<Digest>,
) -> (r: Result<AggregateTrace, AggregationError>)
    requires
        shapes.len() == pvs.len(),
        forall|i: int| 0 <= i < made.len() ==> window_fits((#[trigger] made@[i])@, *wl),
        pvs.len() > 0 ==> l.fits(sources.len() as int, pvs.len() as int),
        parts_ok(made.len() as int, sources@, pvs@),
    ensures
        ({
            let fail = store_fail(shapes@, *wl, *l, sources@, pvs@, dom as int, digests@);
            match r {
                Err(e) => fail == Some(e),
                Ok(t) => fail is None && aggregate_is(
                    t,
                    *l,
                    inner_traces(made@, *wl),
                    sources@,
                    pvs@,
                    dom as int,
                ),
            }
        }),
{
    let k: usize = pvs.len();
    if k == 0 {
        return Err(AggregationError::Empty);
    }
    if !shapes_agree(shapes) {
        return Err(AggregationError::MismatchedInnerShape);
    }
    proof {
        assert(0 <= l.n_queries * l.m_period) by (nonlinear_arith);
    }
    if l.fold_block * BLOCK < l.tr + l.n_queries * l.m_period {
        return Err(AggregationError::TraceLayout(LayoutFault::FoldOverlap));
    }
    if l.height.checked_mul(l.fold_w).is_none() {
        return Err(
            AggregationError::TraceLayout(
                LayoutFault::Overflow { what: "production aggregate store" },
            ),
        );
    }
    if wl.height != l.inst_h || wl.segment.width != l.fused_w {
        return Err(AggregationError::MismatchedInnerShape);
    }
    let mut rows: Trace = blank_rows(l.height, l.fold_w);
    let mut root: Digest = [0; 4];
    let ghost windows = inner_traces(made@, *wl);
    proof {
        assert(ints(root@) =~= root_at(dom as int, sources@, pvs@, 0));
        assert(cells(rows@).len() == rows.len());
        assert forall|x: int| 0 <= x < rows.len() implies ints((#[trigger] rows@[x])@) == zeros(
            l.fold_w as int,
        ) by {
            assert(cells(rows@)[x] == ints(rows@[x]@));
        }
        assert(0 * l.inst_h == 0);
    }
    for i in 0..k
        invariant
            k == pvs.len(),
            k == made.len(),
            forall|i: int| 0 <= i < made.len() ==> window_fits((#[trigger] made@[i])@, *wl),
            sits(*wl, *l),
            windows == inner_traces(made@, *wl),
            l.fits(sources.len() as int, pvs.len() as int),
            parts_ok(made.len() as int, sources@, pvs@),
            ints(root@) == root_at(dom as int, sources@, pvs@, i as nat),
            rows.len() == l.height,
            forall|j: int, r: int|
                #![trigger rows@[j * l.inst_h + r]]
                0 <= j < i && 0 <= r < l.inst_h ==> ints(rows@[j * l.inst_h + r]@) == tiled_row(
                    *l,
                    windows,
                    dom as int,
                    sources@,
                    pvs@,
                    j,
                    r,
                ),
            forall|x: int|
                i * l.inst_h <= x < l.height ==> ints((#[trigger] rows@[x])@) == zeros(
                    l.fold_w as int,
                ),
    {
        let ghost before = rows@;
        proof {
            assert((i + 1) * l.inst_h == i * l.inst_h + l.inst_h) by (nonlinear_arith);
            assert((i + 1) * l.inst_h <= k * l.inst_h) by (nonlinear_arith)
                requires
                    i + 1 <= k,
            ;
            assert(window_fits(made@[i as int]@, *wl));
        }
        root = write_instance(
            &mut rows,
            &made[i],
            wl,
            l,
            sources,
            pvs,
            dom,
            i,
            root,
            Ghost(windows),
        );
        proof {
            assert forall|j: int, r: int|
                #![trigger rows@[j * l.inst_h + r]]
                0 <= j < i + 1 && 0 <= r < l.inst_h implies ints(rows@[j * l.inst_h + r]@)
                == tiled_row(*l, windows, dom as int, sources@, pvs@, j, r) by {
                let x = j * l.inst_h + r;
                assert(0 <= j * l.inst_h) by (nonlinear_arith)
                    requires
                        0 <= j,
                ;
                if j < i {
                    assert(x < i * l.inst_h) by (nonlinear_arith)
                        requires
                            j < i,
                            0 <= r < l.inst_h,
                            x == j * l.inst_h + r,
                    ;
                    assert(rows@[x] == before[x]);
                } else {
                    assert(x - i * l.inst_h == r);
                    assert(ints(rows@[x]@) == tiled_row(
                        *l,
                        windows,
                        dom as int,
                        sources@,
                        pvs@,
                        i as int,
                        x - i * l.inst_h,
                    ));
                }
            }
            assert forall|x: int|
                (i + 1) * l.inst_h <= x < l.height implies ints((#[trigger] rows@[x])@) == zeros(
                l.fold_w as int,
            ) by {
                assert(rows@[x] == before[x]);
            }
        }
    }
    match check_tx_root(root, digests) {
        Err(e) => Err(e),
        Ok(()) => Ok(AggregateTrace { rows, tx_root: root }),
    }
}

/// Aggregate traces of the same windows are the same, row by row, and have the same root: what is
/// written to a store is what is built in memory.
pub proof fn law_store_is_resident(
    a: AggregateTrace,
    b: AggregateTrace,
    l: FoldLayout,
    windows: Seq<Seq<Seq<int>>>,
    sources: Seq<BlockSource>,
    pvs: Seq<Vec<u64>>,
    dom: int,
)
    requires
        aggregate_is(a, l, windows, sources, pvs, dom),
        aggregate_is(b, l, windows, sources, pvs, dom),
        l.inst_h > 0,
    ensures
        ints(a.tx_root@) == ints(b.tx_root@),
        cells(a.rows@) == cells(b.rows@),
{
    let h = l.inst_h as int;
    let n = pvs.len() as int;
    assert forall|x: int| 0 <= x < a.rows.len() implies #[trigger] cells(a.rows@)[x] == cells(
        b.rows@,
    )[x] by {
        if x < n * h {
            let (i, r) = (x / h, x % h);
            vstd::arithmetic::div_mod::lemma_fundamental_div_mod(x, h);
            assert(h * i == i * h) by (nonlinear_arith);
            assert(i < n) by (nonlinear_arith)
                requires
                    x == h * i + r,
                    x < n * h,
                    0 <= r,
                    h > 0,
            ;
            assert(i >= 0) by (nonlinear_arith)
                requires
                    x == h * i + r,
                    0 <= x,
                    r < h,
                    h > 0,
            ;
            assert(x == i * h + r);
            assert(ints(a.rows@[i * l.inst_h + r]@) == ints(b.rows@[i * l.inst_h + r]@));
        } else {
            assert(ints(a.rows@[x]@) == ints(b.rows@[x]@));
        }
    }
    assert(cells(a.rows@) =~= cells(b.rows@));
}

/// Where the elements of the trace are within the limit of a trace in memory, an aggregate is written to
/// a store exactly where it is built in memory, and refused for the same where it is not.
pub proof fn law_store_outcome(
    shapes: Seq<InnerShape>,
    wl: WindowLayout,
    l: FoldLayout,
    sources: Seq<BlockSource>,
    pvs: Seq<Vec<u64>>,
    dom: int,
    digests: Seq<Digest>,
    limit: usize,
)
    requires
        l.height * l.fold_w <= limit,
    ensures
        store_fail(shapes, wl, l, sources, pvs, dom, digests) == aggregate_fail(
            shapes,
            same_size(wl, l),
            l,
            sources,
            pvs,
            dom,
            digests,
            Some(limit),
        ),
{
}

} // verus!
