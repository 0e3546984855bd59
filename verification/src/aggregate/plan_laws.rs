//! Laws on what an aggregation takes: its sizes and limits, its windows, and the batch as a whole.
use super::emit::WindowLayout;
use super::fault::{decimal_z, digit_z, CheckedShape};
use super::inputs::{
    aggregate_plan, inner_plan, plans_fail, trailing_zeros_z, InnerSizes, JoinSplitAggregateInput,
    OuterSizes,
};
use super::laws::law_honest_root;
use super::options::{
    estimate_z, AggregationBackend, ProductionAggregateResourcePlan, BLOWUP, FELT_BYTES, LOG_BLOWUP,
    NUM_RANDOM_CODEWORDS,
};
use super::plan::{decoded_all, decoded_from, shape_is, shapes_are};
use super::shape::shape_fail;
use super::source::{
    first_terms, query_apart, shown, tile_is, window_fail, window_queries_fail, WindowInputs, WindowShape,
};
use super::store::store_fail;
use super::tiling::{
    aggregate_fail, all_same, chunks_cover, oracle_root, root_at, rows_per_chunk, statement_z,
    BlockSource, FoldLayout, InnerShape, EMIT_MAX_FELTS,
};
use super::window::{bad_salts, witness_is, HidingWitness};
use super::window_laws::{folds_pairs, law_binary_shape};
use crate::bits::lemma_shr;
use crate::challenger::ready;
use crate::decode::{decoded, hiding_proof};
use crate::field::{ered, ints, red, Challenge, GENERATOR};
use crate::fri_input::OpenedBatch;
use crate::merkle::{path_z, Digest};
use crate::mmcs::index_path;
use crate::monolith::fused_trace::TileOpenings;
use crate::monolith::geometry::MonolithTraceRowRange;
use crate::monolith::query::opening_of;
use crate::native_fri::query_point;
use crate::plain_proof::{
    chunk_codewords, codewords_ok, hiding_opened_z, PlainProof, QueryProof,
};
use crate::poseidon2::BLOCK;
use crate::query_data::{groups_are, query_terms_z, rounds_of};
use crate::replay::{at_challenge, at_index, hiding_script, Replay};
use vstd::arithmetic::power2::{lemma_pow2_pos, pow2};
use vstd::prelude::*;

verus! {

/// The size of a trace is the product of its height and width, and within a limit exactly where that
/// product is.
pub proof fn law_estimate(what: &'static str, height: usize, width: usize, limit: usize)
    ensures
        estimate_z(what, height, width, limit) is Ok <==> height * width <= usize::MAX,
        height * width <= usize::MAX ==> {
            let e = estimate_z(what, height, width, limit)->Ok_0;
            &&& e.height == height
            &&& e.width == width
            &&& e.required_felts == height * width
            &&& e.limit_felts == limit
            &&& e.within_limit <==> height * width <= limit
        },
{
}

/// A plan keeps the limits of a backend in memory exactly where both traces are within theirs.
pub proof fn law_memory_limits(p: ProductionAggregateResourcePlan, available: Option<usize>)
    ensures
        p.limits_z(AggregationBackend::InMemory, available) is Ok <==> p.inner_trace.within_limit
            && p.aggregate_trace.within_limit,
{
}

/// A plan keeps the limits of a backend that streams exactly where both query segments are within theirs
/// and the spill, where it is limited, can be sized and does not exceed what is available.
pub proof fn law_stream_limits(
    p: ProductionAggregateResourcePlan,
    backend: AggregationBackend,
    available: Option<usize>,
)
    requires
        backend is Stream,
    ensures
        p.limits_z(backend, available) is Ok <==> {
            &&& p.inner_query_segment.within_limit
            &&& p.aggregate_query_segment.within_limit
            &&& available is Some ==> p.spill_z() is Ok
                && p.spill_z()->Ok_0.trace_commit_peak_bytes <= available->0
        },
{
}

/// The most bytes of a spill are no fewer than those of any two stores that are there together, and are
/// those of one such pair.
pub proof fn law_spill_peak(p: ProductionAggregateResourcePlan)
    requires
        p.spill_z() is Ok,
    ensures
        ({
            let s = p.spill_z()->Ok_0;
            &&& s.trace_bytes == p.aggregate_trace.height * p.aggregate_trace.width * FELT_BYTES
            &&& s.randomized_trace_bytes == 2 * p.aggregate_trace.height * (p.aggregate_trace.width
                + NUM_RANDOM_CODEWORDS) * FELT_BYTES
            &&& s.trace_commit_peak_bytes >= s.trace_bytes + s.randomized_trace_bytes
            &&& s.trace_commit_peak_bytes >= s.randomized_trace_bytes + s.committed_trace_lde_bytes
            &&& s.trace_commit_peak_bytes == s.trace_bytes + s.randomized_trace_bytes
                || s.trace_commit_peak_bytes == s.randomized_trace_bytes
                + s.committed_trace_lde_bytes
        }),
{
}

/// A shape is taken exactly where its quotient chunks are within the blowup and its degree is one that
/// the verifier takes.
pub proof fn law_shape_taken(
    of: CheckedShape,
    log_chunks: int,
    degree_bits: int,
    is_zk: int,
    max_log_degree: int,
)
    ensures
        shape_fail(of, log_chunks, degree_bits, is_zk, max_log_degree) is None <==> {
            &&& log_chunks <= LOG_BLOWUP
            &&& is_zk <= degree_bits <= max_log_degree
            &&& degree_bits < usize::BITS
        },
{
}

/// An inner region is planned exactly where its quotient chunks are within the blowup and the sizes of
/// its trace and of a query segment can be had.
pub proof fn law_inner_planned(s: InnerSizes, limit: usize)
    ensures
        inner_plan(s, limit) is Ok <==> {
            &&& s.num_quotient_chunks <= BLOWUP
            &&& s.height * s.fused_w <= usize::MAX
            &&& s.m_period * s.fused_w <= usize::MAX
        },
{
}

proof fn lemma_plans(shapes: Seq<InnerShape>, sizes: Seq<InnerSizes>, limit: usize, n: nat)
    requires
        n <= shapes.len(),
        n <= sizes.len(),
    ensures
        plans_fail(shapes, sizes, limit, n) is None <==> {
            &&& forall|i: int| 0 <= i < n ==> inner_plan(#[trigger] sizes[i], limit) is Ok
            &&& forall|i: int| 0 <= i < n ==> shapes[0].same(#[trigger] shapes[i])
        },
    decreases n,
{
    if n > 0 {
        lemma_plans(shapes, sizes, limit, (n - 1) as nat);
    }
}

/// A batch is planned exactly where there is an input, every inner region is planned, all have the shape
/// of the first, the fold blocks stand behind the queries, and the sizes can be had.
pub proof fn law_batch_planned(
    shapes: Seq<InnerShape>,
    sizes: Seq<InnerSizes>,
    outer: OuterSizes,
    limit: usize,
)
    requires
        shapes.len() == sizes.len(),
        shapes.len() <= usize::MAX,
    ensures
        aggregate_plan(shapes, sizes, outer, limit) is Ok <==> {
            &&& shapes.len() > 0
            &&& forall|i: int| 0 <= i < sizes.len() ==> inner_plan(#[trigger] sizes[i], limit) is Ok
            &&& forall|i: int| 0 <= i < shapes.len() ==> shapes[0].same(#[trigger] shapes[i])
            &&& outer.tr + outer.n_queries * outer.m_period <= outer.fold_block * BLOCK
            &&& outer.height * outer.fold_w <= usize::MAX
            &&& outer.m_period * outer.fold_w <= usize::MAX
        },
        aggregate_plan(shapes, sizes, outer, limit) is Ok ==> {
            let p = aggregate_plan(shapes, sizes, outer, limit)->Ok_0;
            &&& p.n_inputs == shapes.len()
            &&& p.inner_trace.required_felts == sizes[0].height * sizes[0].fused_w
            &&& p.inner_query_segment.required_felts == sizes[0].m_period * sizes[0].fused_w
            &&& p.aggregate_trace.required_felts == outer.height * outer.fold_w
            &&& p.aggregate_query_segment.required_felts == outer.m_period * outer.fold_w
            &&& p.inner_trace.within_limit <==> sizes[0].height * sizes[0].fused_w <= limit
            &&& p.inner_query_segment.within_limit <==> sizes[0].m_period * sizes[0].fused_w <= limit
            &&& p.aggregate_trace.within_limit <==> outer.height * outer.fold_w <= limit
            &&& p.aggregate_query_segment.within_limit <==> outer.m_period * outer.fold_w <= limit
        },
{
    lemma_plans(shapes, sizes, limit, shapes.len());
    if shapes.len() > 0 {
        law_inner_planned(sizes[0], limit);
        if aggregate_plan(shapes, sizes, outer, limit) is Ok {
            assert(inner_plan(sizes[0], limit) is Ok);
        }
    }
}

/// A window takes a query: it has the number of terms that the first has, its three rounds, salts of four
/// elements, and no opening point at its own point.
pub open spec fn query_taken(
    q: QueryProof,
    coms: Seq<OpenedBatch>,
    terms: nat,
    felt: int,
    log_blowup: int,
) -> bool {
    &&& query_terms_z(q.input_proof@, coms).len() == terms
    &&& q.input_proof.len() >= 3
    &&& !bad_salts(q)
    &&& query_apart(q, coms, felt, log_blowup)
}

/// The queries of a window are taken exactly where each of them is, with its own index element.
pub proof fn law_window_queries(
    p: PlainProof,
    coms: Seq<OpenedBatch>,
    felts: Seq<u64>,
    log_blowup: int,
    n: nat,
)
    requires
        n <= p.fri.query_proofs@.len(),
        n <= felts.len(),
    ensures
        window_queries_fail(p, coms, felts, log_blowup, n) is None <==> forall|q: int|
            0 <= q < n ==> query_taken(
                #[trigger] p.fri.query_proofs@[q],
                coms,
                query_terms_z(p.fri.query_proofs@[0].input_proof@, coms).len(),
                felts[q] as int,
                log_blowup,
            ),
    decreases n,
{
    if n > 0 {
        law_window_queries(p, coms, felts, log_blowup, (n - 1) as nat);
        assert(first_terms(p, coms) == query_terms_z(
            p.fri.query_proofs@[0].input_proof@,
            coms,
        ).len());
    }
}

/// The window of a hiding proof is built exactly where every round of every query folds a pair, its
/// quotient chunks are within the blowup, a query segment is within the limit, every query is taken, the
/// proof has a random cap, and the window shows as many values as the region has columns for.
pub proof fn law_window_built(p: PlainProof, w: WindowInputs, s: WindowShape, r: Replay)
    requires
        p.fri.query_proofs@.len() <= r.index_felts@.len(),
    ensures
        window_fail(p, w, s, r) is None <==> {
            &&& forall|k: int|
                0 <= k < p.fri.query_proofs@.len() ==> folds_pairs(#[trigger] p.fri.query_proofs@[k])
            &&& s.num_quotient_chunks <= BLOWUP
            &&& s.m_period * s.fused_w <= usize::MAX
            &&& s.m_period * s.fused_w <= s.limit_felts
            &&& forall|q: int|
                0 <= q < p.fri.query_proofs@.len() ==> query_taken(
                    #[trigger] p.fri.query_proofs@[q],
                    w.coms@,
                    query_terms_z(p.fri.query_proofs@[0].input_proof@, w.coms@).len(),
                    r.index_felts@[q] as int,
                    s.log_blowup as int,
                )
            &&& p.random_cap is Some
            &&& shown(p, w, r, true).len() == s.pis_count
        },
{
    let n = p.fri.query_proofs@.len();
    law_binary_shape(p.fri.query_proofs@, n);
    law_window_queries(p, w.coms@, r.index_felts@, s.log_blowup as int, n);
}

/// The tile of a query: its index is that of its element, in as many bits as the query has folds and the
/// blowup; its terms, its reduced opening at the point of the index, its rounds, its paths and its fold
/// groups are those of the query.
pub proof fn law_tile(
    t: TileOpenings,
    q: QueryProof,
    coms: Seq<OpenedBatch>,
    felt: int,
    alpha: Challenge,
    betas: Seq<Challenge>,
    log_blowup: int,
    tr: int,
    qt: int,
    shift: nat,
)
    requires
        tile_is(t, q, coms, felt, alpha, betas, log_blowup, tr, qt, shift),
    ensures
        ({
            let lg = q.commit_phase_openings.len() + log_blowup;
            let index = felt % (pow2(lg as nat) as int);
            let terms = query_terms_z(q.input_proof@, coms);
            &&& t.query.index == index
            &&& t.query.alpha == alpha
            &&& t.query.terms@ == terms
            &&& t.query.ro@ == opening_of(
                terms,
                red(GENERATOR * query_point(index, lg as nat)),
                alpha@,
            )
            &&& rounds_of(t.query.rounds@, q.commit_phase_openings@, betas, index, lg)
            &&& path_z(t.path@) == index_path(q.input_proof@[tr].path@, index)
            &&& path_z(t.quot_path@) == index_path(
                q.input_proof@[qt].path@,
                index / (pow2(shift) as int),
            )
            &&& groups_are(
                t.commits@,
                q.commit_phase_openings@,
                t.query.rounds@,
                t.query.ro@,
                index,
            )
        }),
{
    let lg = q.commit_phase_openings.len() + log_blowup;
    lemma_pow2_pos(lg as nat);
    vstd::arithmetic::div_mod::lemma_mod_bound(felt, pow2(lg as nat) as int);
    lemma_shr(felt % (pow2(lg as nat) as int), shift);
}

/// A query is apart from its opening points exactly where none of them is the point of its index.
pub proof fn law_query_apart(q: QueryProof, coms: Seq<OpenedBatch>, felt: int, log_blowup: int)
    ensures
        ({
            let lg = q.commit_phase_openings.len() + log_blowup;
            let x = red(GENERATOR * query_point(felt % (pow2(lg as nat) as int), lg as nat));
            let terms = query_terms_z(q.input_proof@, coms);
            query_apart(q, coms, felt, log_blowup) <==> forall|k: int|
                0 <= k < terms.len() ==> ered(
                    ((#[trigger] terms[k]).z@.0 - x, terms[k].z@.1),
                ) != (0int, 0int)
        }),
{
}

/// An honest batch is made: where there is an input, all shapes agree, the layout and the limit are kept,
/// the windows are of the right size and the digests are those of the statements, nothing is refused.
pub proof fn law_honest_batch(
    shapes: Seq<InnerShape>,
    l: FoldLayout,
    sources: Seq<BlockSource>,
    pvs: Seq<Vec<u64>>,
    dom: int,
    digests: Seq<Digest>,
    limit: Option<usize>,
)
    requires
        shapes.len() > 0,
        forall|i: int| 0 <= i < shapes.len() ==> shapes[0].same(#[trigger] shapes[i]),
        l.tr + l.n_queries * l.m_period <= l.fold_block * BLOCK,
        limit is Some ==> l.height * l.fold_w <= limit->0,
        digests.len() == pvs.len(),
        forall|i: int|
            0 <= i < pvs.len() ==> ints((#[trigger] digests[i])@) == statement_z(
                dom,
                sources,
                ints(pvs[i]@),
            ),
    ensures
        aggregate_fail(shapes, true, l, sources, pvs, dom, digests, limit) is None,
{
    law_honest_root(dom, sources, pvs, digests, pvs.len());
    law_aggregate_made(shapes, true, l, sources, pvs, dom, digests, limit);
}

/// Shapes are the same exactly where their schedules, their terms and their caps are.
pub proof fn law_same_shape(a: InnerShape, b: InnerShape)
    ensures
        a.same(b) <==> {
            &&& a.counts@ == b.counts@
            &&& a.binds@ == b.binds@
            &&& a.index_binds@ == b.index_binds@
            &&& a.n_terms == b.n_terms
            &&& a.cap_height == b.cap_height
        },
        a.same(a),
        a.same(b) ==> b.same(a),
{
}

/// An aggregate is made exactly where there is an input, all shapes are that of the first, the fold blocks
/// stand behind the queries, the trace is within its limit, the windows are of the right size, and the
/// root of the statements is the one that the digests fold to.
pub proof fn law_aggregate_made(
    shapes: Seq<InnerShape>,
    matched: bool,
    l: FoldLayout,
    sources: Seq<BlockSource>,
    pvs: Seq<Vec<u64>>,
    dom: int,
    digests: Seq<Digest>,
    limit: Option<usize>,
)
    ensures
        aggregate_fail(shapes, matched, l, sources, pvs, dom, digests, limit) is None <==> {
            &&& shapes.len() > 0
            &&& forall|i: int| 0 <= i < shapes.len() ==> shapes[0].same(#[trigger] shapes[i])
            &&& l.tr + l.n_queries * l.m_period <= l.fold_block * BLOCK
            &&& limit is Some ==> l.height * l.fold_w <= usize::MAX && l.height * l.fold_w <= limit->0
            &&& matched
            &&& root_at(dom, sources, pvs, pvs.len()) == oracle_root(digests, digests.len())
        },
{
    assert(all_same(shapes) <==> forall|i: int|
        0 <= i < shapes.len() ==> shapes[0].same(#[trigger] shapes[i]));
}

/// The same holds of an aggregate that is written to a store.
pub proof fn law_store_made(
    shapes: Seq<InnerShape>,
    wl: WindowLayout,
    l: FoldLayout,
    sources: Seq<BlockSource>,
    pvs: Seq<Vec<u64>>,
    dom: int,
    digests: Seq<Digest>,
)
    ensures
        store_fail(shapes, wl, l, sources, pvs, dom, digests) is None <==> {
            &&& shapes.len() > 0
            &&& forall|i: int| 0 <= i < shapes.len() ==> shapes[0].same(#[trigger] shapes[i])
            &&& l.tr + l.n_queries * l.m_period <= l.fold_block * BLOCK
            &&& l.height * l.fold_w <= usize::MAX
            &&& wl.height == l.inst_h
            &&& wl.segment.width == l.fused_w
            &&& root_at(dom, sources, pvs, pvs.len()) == oracle_root(digests, digests.len())
        },
{
    assert(all_same(shapes) <==> forall|i: int|
        0 <= i < shapes.len() ==> shapes[0].same(#[trigger] shapes[i]));
}

/// The rows of a chunk: all of a query's, and otherwise as many as fit the most that is emitted at a time,
/// at least one, and no more than there are.
pub proof fn law_rows_per_chunk(range: MonolithTraceRowRange, fused_w: int)
    requires
        fused_w > 0,
    ensures
        range.kind is Query ==> rows_per_chunk(range, fused_w) == range.rows,
        range.rows > 0 ==> 1 <= rows_per_chunk(range, fused_w) <= range.rows,
        range.kind !is Query && rows_per_chunk(range, fused_w) > 1 ==> rows_per_chunk(range, fused_w)
            * fused_w <= EMIT_MAX_FELTS,
        range.kind !is Query && rows_per_chunk(range, fused_w) < range.rows ==> (rows_per_chunk(
            range,
            fused_w,
        ) + 1) * fused_w > EMIT_MAX_FELTS,
{
    let e = EMIT_MAX_FELTS as int;
    let f = e / fused_w;
    let r = rows_per_chunk(range, fused_w);
    vstd::arithmetic::div_mod::lemma_fundamental_div_mod(e, fused_w);
    vstd::arithmetic::div_mod::lemma_mod_bound(e, fused_w);
    assert(f * fused_w <= e < (f + 1) * fused_w) by (nonlinear_arith)
        requires
            e == fused_w * f + e % fused_w,
            0 <= e % fused_w < fused_w,
    ;
    if range.kind !is Query {
        if r > 1 {
            assert(r <= f);
            assert(r * fused_w <= f * fused_w) by (nonlinear_arith)
                requires
                    r <= f,
                    fused_w > 0,
            ;
        }
        if r < range.rows {
            assert(r >= f);
            assert((r + 1) * fused_w >= (f + 1) * fused_w) by (nonlinear_arith)
                requires
                    r >= f,
                    fused_w > 0,
            ;
        }
    }
}

/// The shape of an inner proof: the schedule of its transcript, a term for every value that it opens, and
/// the height of its cap.
pub proof fn law_inner_shape(s: InnerShape, p: PlainProof, base: int, pvs: Seq<int>, j: int, q: int)
    requires
        shape_is(s, p, base, pvs),
        0 <= j < 3 + p.fri.commit_phase_commits@.len(),
        0 <= q < p.fri.query_proofs@.len(),
    ensures
        ({
            let played = hiding_script(p, base, pvs);
            &&& s.counts@ == at_index(played, p.fri.query_proofs@.len()).counts
            &&& s.binds@.len() == 3 + p.fri.commit_phase_commits@.len()
            &&& s.binds@[j] == (ready(at_challenge(played, j)).blocks.len() - 1) as usize
            &&& s.index_binds@.len() == p.fri.query_proofs@.len()
            &&& s.index_binds@[q].0 == (ready(at_index(played, q as nat)).blocks.len() - 1) as usize
            &&& s.index_binds@[q].1 == (ready(at_index(played, q as nat)).output.len() - 1) as usize
            &&& s.n_terms == hiding_opened_z(p).len()
            &&& s.cap_height == trailing_zeros_z(p.trace_cap.len() as int)
        }),
{
}

/// The shapes of a plan: each is that of the proof that its input's bytes decode to, at the degree of its
/// trace without the hiding, with its input's public values.
pub proof fn law_planned_shapes(
    shapes: Seq<InnerShape>,
    proofs: Seq<PlainProof>,
    inputs: Seq<JoinSplitAggregateInput>,
    is_zk: int,
    i: int,
)
    requires
        decoded_all(proofs, inputs),
        shapes_are(shapes, proofs, inputs, is_zk),
        0 <= i < inputs.len(),
    ensures
        shapes.len() == inputs.len(),
        hiding_proof(inputs[i].proof_bytes@) is Some,
        decoded(proofs[i], hiding_proof(inputs[i].proof_bytes@)->0),
        shape_is(shapes[i], proofs[i], proofs[i].degree_bits - is_zk, ints(inputs[i].public_values@)),
{
    let a = shapes[i];
    let b = proofs[i];
    assert(decoded_from(b, inputs[i].proof_bytes@));
}

/// The random codewords that the openings of a proof call for: those of the random round where there is
/// one, of the trace at both points, and of every quotient chunk.
pub proof fn law_codewords_there(p: PlainProof)
    requires
        p.trace_next is Some,
    ensures
        p.random is None ==> (codewords_ok(p) <==> {
            &&& p.codewords@.len() >= 2
            &&& p.codewords@[0]@.len() >= 1
            &&& p.codewords@[0]@[0]@.len() >= 2
            &&& p.codewords@[1]@.len() >= p.quotient_chunks@.len()
            &&& forall|i: int|
                0 <= i < p.quotient_chunks@.len() ==> (#[trigger] p.codewords@[1]@[i])@.len() >= 1
        }),
        p.random is Some ==> (codewords_ok(p) <==> {
            &&& p.codewords@.len() >= 3
            &&& p.codewords@[0]@.len() >= 1
            &&& p.codewords@[0]@[0]@.len() >= 1
            &&& p.codewords@[1]@.len() >= 1
            &&& p.codewords@[1]@[0]@.len() >= 2
            &&& p.codewords@[2]@.len() >= p.quotient_chunks@.len()
            &&& forall|i: int|
                0 <= i < p.quotient_chunks@.len() ==> (#[trigger] p.codewords@[2]@[i])@.len() >= 1
        }),
{
    let t: int = if p.random is Some {
        1
    } else {
        0
    };
    assert(chunk_codewords(p) == p.codewords@[t + 1]@);
}

/// The salts of a query: those of its random, trace and quotient rows and of every fold group, and the
/// path of its random row at the index.
pub proof fn law_query_salts(w: HidingWitness, q: QueryProof, index: int, i: int, r: int)
    requires
        witness_is(w, q, index),
        0 <= i < q.input_proof@[2].salts@.len(),
        0 <= r < q.commit_phase_openings@.len(),
    ensures
        w.random_salt@ == q.input_proof@[0].salts@[0]@,
        w.trace_salt@ == q.input_proof@[1].salts@[0]@,
        w.quot_salts.len() == q.input_proof@[2].salts@.len(),
        w.quot_salts@[i]@ == q.input_proof@[2].salts@[i]@,
        w.commit_salts.len() == q.commit_phase_openings@.len(),
        w.commit_salts@[r]@ == q.commit_phase_openings@[r].salts@[0]@,
        path_z(w.random_path@) == index_path(q.input_proof@[0].path@, index),
{
    let a = w.quot_salts@[i];
    let b = w.commit_salts@[r];
}

/// The chunks of a range stand one behind the other, from its first row on, and none is longer than a
/// chunk may be.
pub proof fn law_chunks_in_order(
    chunks: Seq<MonolithTraceRowRange>,
    range: MonolithTraceRowRange,
    per: int,
    c: int,
)
    requires
        chunks_cover(chunks, range, per),
        0 <= c < chunks.len(),
    ensures
        chunks[c].kind == range.kind,
        chunks[c].width == range.width,
        c == 0 ==> chunks[c].start_row == range.start_row,
        c > 0 ==> chunks[c].start_row == chunks[c - 1].start_row + per,
        0 < chunks[c].rows <= per,
        chunks[c].start_row + chunks[c].rows <= range.start_row + range.rows,
        c > 0 ==> chunks[c - 1].rows == per,
{
    let a = chunks[c];
    if c > 0 {
        let b = chunks[c - 1];
        assert(c * per == (c - 1) * per + per) by (nonlinear_arith);
    }
}

/// A number in decimal is its tenth in decimal with its last digit behind it, and a digit is the sign
/// that stands as far behind that of zero as its value.
pub proof fn law_decimal(n: nat, d: nat)
    requires
        d < 10,
    ensures
        digit_z(d) as u32 == '0' as u32 + d,
        decimal_z(d) == seq![digit_z(d)],
        n > 0 ==> decimal_z(10 * n + d) == decimal_z(n).push(digit_z(d)),
{
    assert((10 * n + d) / 10 == n && (10 * n + d) % 10 == d) by (nonlinear_arith)
        requires
            d < 10,
    ;
}

} // verus!
