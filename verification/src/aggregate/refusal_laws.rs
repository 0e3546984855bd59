//! Laws on what an aggregation is refused for, check by check in their order.
use super::emit::WindowLayout;
use super::fault::{CheckedShape, DegreeFault, LayoutFault, SpillFault};
use super::input_laws::{law_fan_in, law_inputs_taken};
use super::inputs::{
    aggregate_plan, inner_plan, pad_fail, plans_fail, refused, research_fail, trailing_zeros_z, wide_of,
    InnerSizes, JoinSplitAggregateInput, OuterSizes, ProductionParams,
};
use super::options::{
    AggregationBackend, AggregationError, ProductionAggregateResourcePlan,
    ProductionAggregateStreamSpillEstimate, BLOWUP, CAP_HEIGHT, FELT_BYTES, LOG_BLOWUP, NUM_QUERIES,
    NUM_RANDOM_CODEWORDS,
};
use super::plan::plan_refused;
use super::shape::shape_fail;
use super::source::{
    betas_z, query_apart, quotient_shift, shown, tile_is, window_fail, window_queries_fail,
    window_query_fail, window_query_is, WindowInputs, WindowQuery, WindowShape,
};
use super::store::store_fail;
use super::tiling::{aggregate_fail, oracle_root, root_at, BlockSource, FoldLayout, InnerShape};
use super::window::{bad_salts, wide_query, witness_is};
use crate::decode::hiding_proof;
use crate::field::Challenge;
use crate::fri_input::OpenedBatch;
use crate::merkle::Digest;
use crate::plain_proof::{PlainProof, QueryProof};
use crate::poseidon2::BLOCK;
use crate::query_data::query_terms_z;
use crate::replay::Replay;
use vstd::arithmetic::power2::pow2;
use vstd::prelude::*;

verus! {

/// What an input is refused for: another number of public values, bytes that decode to no proof, another
/// number of queries, another height of the cap, a proof that does not hide, a round that folds no pair
/// where pairs are asked for, and a shape that the verifier does not take, in this order.
pub proof fn law_input_refused(i: JoinSplitAggregateInput, params: ProductionParams, binary: bool)
    ensures
        ({
            let fail = refused(i, params, binary);
            let values = i.public_values@.len();
            let found = hiding_proof(i.proof_bytes@);
            let z = found->0;
            let queries = z.2.1.2;
            let cap = trailing_zeros_z(z.0.0.len() as int);
            let arities = Seq::new(
                queries.len(),
                |q: int| Seq::new(queries[q].1.len(), |k: int| queries[q].1[k].0),
            );
            let wide = wide_of(arities, arities.len());
            let sized = values == params.n_public && found is Some;
            let counted = sized && queries.len() == NUM_QUERIES;
            let capped = counted && cap == CAP_HEIGHT;
            let hides = capped && z.0.2 is Some && z.1.5 is Some;
            &&& values != params.n_public ==> fail == Some(
                AggregationError::WrongPublicValueCount { got: values as usize },
            )
            &&& values == params.n_public && found is None ==> fail == Some(
                AggregationError::MalformedInnerProof,
            )
            &&& sized && queries.len() != NUM_QUERIES ==> fail == Some(
                AggregationError::InnerQueryCount {
                    expected: NUM_QUERIES,
                    got: queries.len() as usize,
                },
            )
            &&& counted && cap != CAP_HEIGHT ==> fail == Some(
                AggregationError::InnerCapHeight { expected: CAP_HEIGHT, got: cap as usize },
            )
            &&& capped && (z.0.2 is None || z.1.5 is None) ==> fail == Some(
                AggregationError::NonHidingInnerProof,
            )
            &&& hides && binary && wide is Some ==> fail == Some(
                AggregationError::UnsupportedFriArity { log_arity: wide->0 as usize },
            )
            &&& hides && (!binary || wide is None) ==> fail == (match shape_fail(
                CheckedShape::JoinSplit,
                params.log_num_quotient_chunks as int,
                z.3 as int,
                params.is_zk as int,
                params.max_log_degree as int,
            ) {
                Some(f) => Some(AggregationError::TraceLayout(f)),
                None => None,
            })
        }),
{
}

/// What a shape is refused for: its quotient chunks, a degree too small, or one too large for the
/// verifier or for the machine.
pub proof fn law_shape_refused(
    of: CheckedShape,
    log_chunks: int,
    degree_bits: int,
    is_zk: int,
    max_log_degree: int,
)
    ensures
        ({
            let fail = shape_fail(of, log_chunks, degree_bits, is_zk, max_log_degree);
            let chunked = log_chunks <= LOG_BLOWUP;
            &&& !chunked ==> fail == Some(
                LayoutFault::QuotientChunks {
                    of,
                    log_num_quotient_chunks: log_chunks as usize,
                    log_blowup: LOG_BLOWUP,
                },
            )
            &&& chunked && degree_bits < is_zk ==> fail == Some(
                LayoutFault::DegreeBits {
                    of,
                    fault: DegreeFault::TooSmall {
                        minimum: is_zk as usize,
                        got: degree_bits as usize,
                    },
                },
            )
            &&& chunked && is_zk <= degree_bits && degree_bits > max_log_degree ==> fail == Some(
                LayoutFault::DegreeBits {
                    of,
                    fault: DegreeFault::TooLarge {
                        maximum: max_log_degree as usize,
                        got: degree_bits as usize,
                    },
                },
            )
            &&& chunked && is_zk <= degree_bits <= max_log_degree && degree_bits >= usize::BITS ==> fail
                == Some(
                LayoutFault::DegreeBits {
                    of,
                    fault: DegreeFault::TooLarge {
                        maximum: (usize::BITS - 1) as usize,
                        got: degree_bits as usize,
                    },
                },
            )
        }),
{
}

/// What a research input is refused for: another number of public values, bytes that decode to no proof,
/// another number of queries, another height of the cap, or its verifier's verdict.
pub proof fn law_research_refused(
    shape: Option<(usize, usize)>,
    values: int,
    n_public: int,
    queries: int,
    cap_height: int,
    verdict: bool,
)
    ensures
        ({
            let fail = research_fail(shape, values, n_public, queries, cap_height, verdict);
            let (got, roots) = shape->0;
            let cap = trailing_zeros_z(roots as int);
            let sized = values == n_public && shape is Some;
            let counted = sized && got == queries;
            &&& values != n_public ==> fail == Some(
                AggregationError::WrongPublicValueCount { got: values as usize },
            )
            &&& values == n_public && shape is None ==> fail == Some(
                AggregationError::MalformedInnerProof,
            )
            &&& sized && got != queries ==> fail == Some(
                AggregationError::InnerQueryCount { expected: queries as usize, got },
            )
            &&& counted && cap != cap_height ==> fail == Some(
                AggregationError::InnerCapHeight { expected: cap_height as usize, got: cap as usize },
            )
            &&& counted && cap == cap_height && !verdict ==> fail == Some(
                AggregationError::InnerProofRejected,
            )
        }),
{
}

/// A number of inputs that cannot be padded: none, or more than a batch holds.
pub proof fn law_padding_refused(
    inputs: Seq<JoinSplitAggregateInput>,
    dummy: JoinSplitAggregateInput,
    params: ProductionParams,
    verdicts: Seq<bool>,
    dummy_verdict: bool,
    dummy_digest: Digest,
    canonical: Digest,
)
    ensures
        ({
            let fail = pad_fail(
                inputs,
                dummy,
                params,
                verdicts,
                dummy_verdict,
                dummy_digest,
                canonical,
            );
            &&& inputs.len() == 0 ==> fail == Some(AggregationError::Empty)
            &&& inputs.len() > 64 ==> fail == Some(
                AggregationError::TooManyInputs { n: inputs.len() as usize },
            )
        }),
{
}

/// A plan takes inputs exactly where their number can be aggregated and each of them is taken; no
/// verifier is asked.
pub proof fn law_plan_inputs(inputs: Seq<JoinSplitAggregateInput>, params: ProductionParams)
    requires
        inputs.len() <= usize::MAX,
    ensures
        plan_refused(inputs, params) is None <==> {
            &&& inputs.len() <= 64
            &&& exists|k: nat| inputs.len() == #[trigger] pow2(k)
            &&& forall|i: int|
                #![trigger inputs[i]]
                0 <= i < inputs.len() ==> refused(inputs[i], params, true) is None
        },
{
    let all = Seq::new(inputs.len(), |i: int| true);
    law_fan_in(inputs.len() as int);
    law_inputs_taken(inputs, all, params, true, inputs.len());
    assert forall|i: int| 0 <= i < inputs.len() implies #[trigger] all[i] by {}
    if forall|i: int|
        #![trigger inputs[i]]
        0 <= i < inputs.len() ==> refused(inputs[i], params, true) is None {
        assert forall|i: int|
            #![trigger inputs[i]]
            0 <= i < inputs.len() implies refused(inputs[i], params, true) is None && all[i] by {}
    }
}

/// What a backend in memory or one that streams refuses a plan for: the inner trace, or the query segment
/// of it, over its limit; then that of the aggregate; then, of one that streams, the spill.
pub proof fn law_limits_refused(
    p: ProductionAggregateResourcePlan,
    backend: AggregationBackend,
    available: Option<usize>,
)
    ensures
        ({
            let out = p.limits_z(backend, available);
            let memory = backend is InMemory;
            let inner = if memory {
                p.inner_trace
            } else {
                p.inner_query_segment
            };
            let outer = if memory {
                p.aggregate_trace
            } else {
                p.aggregate_query_segment
            };
            &&& !inner.within_limit ==> out == Err::<(), _>(
                AggregationError::ResourceLimit {
                    what: if memory {
                        "hiding inner monolith trace"
                    } else {
                        "hiding inner monolith query segment"
                    },
                    required_felts: inner.required_felts,
                    limit_felts: inner.limit_felts,
                },
            )
            &&& inner.within_limit && !outer.within_limit ==> out == Err::<(), _>(
                AggregationError::ResourceLimit {
                    what: if memory {
                        "production aggregate folded trace"
                    } else {
                        "production aggregate query segment"
                    },
                    required_felts: outer.required_felts,
                    limit_felts: outer.limit_felts,
                },
            )
            &&& inner.within_limit && outer.within_limit && !memory && available is Some
                && p.spill_z() is Err ==> out == Err::<(), _>(p.spill_z()->Err_0)
            &&& inner.within_limit && outer.within_limit && !memory && available is Some
                && p.spill_z() is Ok && p.spill_z()->Ok_0.trace_commit_peak_bytes > available->0
                ==> out == Err::<(), _>(
                AggregationError::ResourceLimit {
                    what: "production aggregate stream spill bytes",
                    required_felts: p.spill_z()->Ok_0.trace_commit_peak_bytes,
                    limit_felts: available->0,
                },
            )
        }),
{
}

/// What a spill cannot be sized for: a width, a height, a store, or a number of bytes that does not fit
/// the machine, in the order in which they are put together. The height of the extension wraps round.
pub proof fn law_spill_refused(p: ProductionAggregateResourcePlan)
    ensures
        ({
            let out = p.spill_z();
            let most = usize::MAX as int;
            let (h, w) = (p.aggregate_trace.height as int, p.aggregate_trace.width as int);
            let rw = w + NUM_RANDOM_CODEWORDS;
            let (t, r) = (h * w, 2 * h * rw);
            let l = ((2 * h * BLOWUP) % (most + 1)) * rw;
            let (tb, rb, lb) = (t * FELT_BYTES, r * FELT_BYTES, l * FELT_BYTES);
            let stores = rw <= most && t <= most && 2 * h <= most && r <= most && l <= most;
            let bytes = stores && tb <= most && rb <= most && lb <= most;
            &&& rw > most ==> spill_is(out, SpillFault::RandomizedWidth)
            &&& rw <= most && t > most ==> spill_is(out, SpillFault::TraceStore)
            &&& rw <= most && t <= most && 2 * h > most ==> spill_is(out, SpillFault::RandomizedHeight)
            &&& rw <= most && t <= most && 2 * h <= most && r > most ==> spill_is(
                out,
                SpillFault::RandomizedStore,
            )
            &&& rw <= most && t <= most && 2 * h <= most && r <= most && l > most ==> spill_is(
                out,
                SpillFault::LdeStore,
            )
            &&& stores && tb > most ==> spill_is(out, SpillFault::TraceBytes)
            &&& stores && tb <= most && rb > most ==> spill_is(out, SpillFault::RandomizedBytes)
            &&& stores && tb <= most && rb <= most && lb > most ==> spill_is(
                out,
                SpillFault::LdeBytes,
            )
            &&& bytes && tb + rb > most ==> spill_is(out, SpillFault::RandomizationPeak)
            &&& bytes && tb + rb <= most && rb + lb > most ==> spill_is(out, SpillFault::CommitPeak)
            &&& bytes && tb + rb <= most && rb + lb <= most ==> out is Ok
                && out->Ok_0.committed_trace_lde_bytes == lb && out->Ok_0.trace_bytes == tb
                && out->Ok_0.randomized_trace_bytes == rb
        }),
{
}

/// Whether a spill cannot be sized for a fault.
pub open spec fn spill_is(
    out: Result<ProductionAggregateStreamSpillEstimate, AggregationError>,
    fault: SpillFault,
) -> bool {
    out is Err && out->Err_0 == AggregationError::TraceLayout(LayoutFault::Spill(fault))
}

/// What an inner region is refused for: its quotient chunks, the size of its trace, or that of a query
/// segment.
pub proof fn law_inner_refused(s: InnerSizes, limit: usize)
    ensures
        ({
            let out = inner_plan(s, limit);
            let chunked = s.num_quotient_chunks <= BLOWUP;
            &&& !chunked ==> out is Err && out->Err_0 == AggregationError::TraceLayout(
                LayoutFault::QuotientChunkCount,
            )
            &&& chunked && s.height * s.fused_w > usize::MAX ==> out is Err && out->Err_0
                == AggregationError::TraceLayout(
                LayoutFault::Overflow { what: "hiding inner monolith trace" },
            )
            &&& chunked && s.height * s.fused_w <= usize::MAX && s.m_period * s.fused_w > usize::MAX
                ==> out is Err && out->Err_0 == AggregationError::TraceLayout(
                LayoutFault::Overflow { what: "hiding inner monolith query segment" },
            )
        }),
{
}

/// What a batch is refused for in a plan: no input; the first inner region that is refused, or whose
/// shape is not that of the first; fold blocks over the queries; and the sizes.
pub proof fn law_batch_refused(
    shapes: Seq<InnerShape>,
    sizes: Seq<InnerSizes>,
    outer: OuterSizes,
    limit: usize,
    n: nat,
)
    ensures
        ({
            let out = aggregate_plan(shapes, sizes, outer, limit);
            let inner = plans_fail(shapes, sizes, limit, shapes.len());
            let apart = outer.tr + outer.n_queries * outer.m_period <= outer.fold_block * BLOCK;
            &&& shapes.len() == 0 ==> out is Err && out->Err_0 == AggregationError::Empty
            &&& shapes.len() > 0 && inner is Some ==> out is Err && out->Err_0 == inner->0
            &&& shapes.len() > 0 && inner is None && !apart ==> out is Err && out->Err_0
                == AggregationError::TraceLayout(LayoutFault::FoldOverlap)
            &&& shapes.len() > 0 && inner is None && apart && outer.height * outer.fold_w > usize::MAX
                ==> out is Err && out->Err_0 == AggregationError::TraceLayout(
                LayoutFault::Overflow { what: "production aggregate folded trace" },
            )
            &&& shapes.len() > 0 && inner is None && apart && outer.height * outer.fold_w
                <= usize::MAX && outer.m_period * outer.fold_w > usize::MAX ==> out is Err
                && out->Err_0 == AggregationError::TraceLayout(
                LayoutFault::Overflow { what: "production aggregate query segment" },
            )
        }),
        plans_fail(shapes, sizes, limit, 0) is None,
        ({
            let before = plans_fail(shapes, sizes, limit, n);
            let next = plans_fail(shapes, sizes, limit, n + 1);
            let own = inner_plan(sizes[n as int], limit);
            &&& before is Some ==> next == before
            &&& before is None && own is Err ==> next == Some(own->Err_0)
            &&& before is None && own is Ok && !shapes[0].same(shapes[n as int]) ==> next == Some(
                AggregationError::MismatchedInnerShape,
            )
        }),
{
}

/// What an aggregate is refused for: no input, shapes that differ, fold blocks over the queries, a trace
/// over its limit, windows of another size, and a root that is not the one of the digests.
pub proof fn law_aggregate_refused(
    shapes: Seq<InnerShape>,
    matched: bool,
    l: FoldLayout,
    sources: Seq<BlockSource>,
    pvs: Seq<Vec<u64>>,
    dom: int,
    digests: Seq<Digest>,
    limit: Option<usize>,
)
    ensures
        ({
            let fail = aggregate_fail(shapes, matched, l, sources, pvs, dom, digests, limit);
            let alike = forall|i: int|
                0 <= i < shapes.len() ==> shapes[0].same(#[trigger] shapes[i]);
            let some = shapes.len() > 0;
            let apart = l.tr + l.n_queries * l.m_period <= l.fold_block * BLOCK;
            let size = l.height * l.fold_w;
            let laid = some && alike && apart;
            let sized = laid && (limit is Some ==> size <= usize::MAX && size <= limit->0);
            &&& !some ==> fail == Some(AggregationError::Empty)
            &&& some && !alike ==> fail == Some(AggregationError::MismatchedInnerShape)
            &&& some && alike && !apart ==> fail == Some(
                AggregationError::TraceLayout(LayoutFault::FoldOverlap),
            )
            &&& laid && limit is Some && size > usize::MAX ==> fail == Some(
                AggregationError::TraceLayout(
                    LayoutFault::Overflow { what: "production aggregate folded trace" },
                ),
            )
            &&& laid && limit is Some && limit->0 < size <= usize::MAX ==> fail == Some(
                AggregationError::ResourceLimit {
                    what: "production aggregate folded trace",
                    required_felts: size as usize,
                    limit_felts: limit->0,
                },
            )
            &&& sized && !matched ==> fail == Some(AggregationError::MismatchedInnerShape)
            &&& sized && matched && root_at(dom, sources, pvs, pvs.len()) != oracle_root(
                digests,
                digests.len(),
            ) ==> fail == Some(AggregationError::TraceLayout(LayoutFault::TxRoot))
        }),
{
}

/// The same of an aggregate that is written to a store.
pub proof fn law_store_refused(
    shapes: Seq<InnerShape>,
    wl: WindowLayout,
    l: FoldLayout,
    sources: Seq<BlockSource>,
    pvs: Seq<Vec<u64>>,
    dom: int,
    digests: Seq<Digest>,
)
    ensures
        ({
            let fail = store_fail(shapes, wl, l, sources, pvs, dom, digests);
            let alike = forall|i: int|
                0 <= i < shapes.len() ==> shapes[0].same(#[trigger] shapes[i]);
            let some = shapes.len() > 0;
            let apart = l.tr + l.n_queries * l.m_period <= l.fold_block * BLOCK;
            let laid = some && alike && apart;
            let sized = laid && l.height * l.fold_w <= usize::MAX;
            let matched = wl.height == l.inst_h && wl.segment.width == l.fused_w;
            &&& !some ==> fail == Some(AggregationError::Empty)
            &&& some && !alike ==> fail == Some(AggregationError::MismatchedInnerShape)
            &&& some && alike && !apart ==> fail == Some(
                AggregationError::TraceLayout(LayoutFault::FoldOverlap),
            )
            &&& laid && l.height * l.fold_w > usize::MAX ==> fail == Some(
                AggregationError::TraceLayout(
                    LayoutFault::Overflow { what: "production aggregate store" },
                ),
            )
            &&& sized && !matched ==> fail == Some(AggregationError::MismatchedInnerShape)
            &&& sized && matched && root_at(dom, sources, pvs, pvs.len()) != oracle_root(
                digests,
                digests.len(),
            ) ==> fail == Some(AggregationError::TraceLayout(LayoutFault::TxRoot))
        }),
{
}

/// What a query of a window is refused for: another number of terms, missing rounds, a salt of another
/// length, or an opening point at its own point.
pub proof fn law_query_refused(
    q: QueryProof,
    coms: Seq<OpenedBatch>,
    n_terms: nat,
    felt: int,
    log_blowup: int,
)
    ensures
        ({
            let fail = window_query_fail(q, coms, n_terms, felt, log_blowup);
            let terms = query_terms_z(q.input_proof@, coms).len() == n_terms;
            let rounds = terms && q.input_proof.len() >= 3;
            &&& !terms ==> fail == Some(AggregationError::MismatchedInnerShape)
            &&& terms && q.input_proof.len() < 3 ==> fail == Some(
                AggregationError::TraceLayout(LayoutFault::MissingRounds),
            )
            &&& rounds && bad_salts(q) ==> fail == Some(
                AggregationError::TraceLayout(LayoutFault::SaltLength),
            )
            &&& rounds && !bad_salts(q) && !query_apart(q, coms, felt, log_blowup) ==> fail == Some(
                AggregationError::InnerProofRejected,
            )
        }),
{
}

/// What a window is refused for: a round that folds no pair, its quotient chunks, the size of a query
/// segment, the first query that is refused, no random cap, and another number of values than columns.
pub proof fn law_window_refused(p: PlainProof, w: WindowInputs, s: WindowShape, r: Replay)
    ensures
        ({
            let fail = window_fail(p, w, s, r);
            let n = p.fri.query_proofs@.len();
            let wide = wide_query(p.fri.query_proofs@, n);
            let chunked = wide is None && s.num_quotient_chunks <= BLOWUP;
            let size = s.m_period * s.fused_w;
            let sized = chunked && size <= usize::MAX && size <= s.limit_felts;
            let queries = window_queries_fail(p, w.coms@, r.index_felts@, s.log_blowup as int, n);
            &&& wide is Some ==> fail == Some(
                AggregationError::UnsupportedFriArity { log_arity: wide->0 as usize },
            )
            &&& wide is None && s.num_quotient_chunks > BLOWUP ==> fail == Some(
                AggregationError::TraceLayout(LayoutFault::QuotientChunkCount),
            )
            &&& chunked && size > usize::MAX ==> fail == Some(
                AggregationError::TraceLayout(
                    LayoutFault::Overflow { what: "hiding inner monolith query segment" },
                ),
            )
            &&& chunked && s.limit_felts < size <= usize::MAX ==> fail == Some(
                AggregationError::ResourceLimit {
                    what: "hiding inner monolith query segment",
                    required_felts: size as usize,
                    limit_felts: s.limit_felts,
                },
            )
            &&& sized && queries is Some ==> fail == queries
            &&& sized && queries is None && p.random_cap is None ==> fail == Some(
                AggregationError::NonHidingInnerProof,
            )
            &&& sized && queries is None && p.random_cap is Some && shown(p, w, r, true).len()
                != s.pis_count ==> fail == Some(
                AggregationError::TraceLayout(LayoutFault::PublicInputs),
            )
        }),
{
}

/// The queries of a window are looked at in turn.
pub proof fn law_queries_in_turn(
    p: PlainProof,
    coms: Seq<OpenedBatch>,
    felts: Seq<u64>,
    log_blowup: int,
    n: nat,
)
    ensures
        ({
            let before = window_queries_fail(p, coms, felts, log_blowup, n);
            let next = window_queries_fail(p, coms, felts, log_blowup, n + 1);
            &&& before is Some ==> next == before
            &&& before is None ==> next == window_query_fail(
                p.fri.query_proofs@[n as int],
                coms,
                query_terms_z(p.fri.query_proofs@[0].input_proof@, coms).len(),
                felts[n as int] as int,
                log_blowup,
            )
        }),
{
}

/// The query of a hiding window: its trace is the second round of the inputs and its quotient the third,
/// both committed at the full height, and its salts are those of the query at the same index.
pub proof fn law_window_query(
    w: WindowQuery,
    q: QueryProof,
    coms: Seq<OpenedBatch>,
    felt: int,
    alpha: Challenge,
    betas: Seq<Challenge>,
    log_blowup: int,
)
    requires
        window_query_is(w, q, coms, felt, alpha, betas, log_blowup),
    ensures
        tile_is(w.tile, q, coms, felt, alpha, betas, log_blowup, 1, 2, 0),
        witness_is(
            w.witness,
            q,
            felt % (pow2((q.commit_phase_openings.len() + log_blowup) as nat) as int),
        ),
{
}

/// The fold challenges of a replay are those behind the first three, and the quotient of a proof that
/// hides nothing is committed as many levels lower as its path is short of the height above the cap.
pub proof fn law_fold_challenges(r: Replay, q: QueryProof, log_blowup: int, cap_height: int, i: int)
    requires
        r.challenges@.len() >= 3,
        0 <= i < r.challenges@.len() - 3,
    ensures
        betas_z(r).len() == r.challenges@.len() - 3,
        betas_z(r)[i] == r.challenges@[3 + i],
        quotient_shift(q, log_blowup, cap_height) == q.commit_phase_openings.len() + log_blowup
            - cap_height - q.input_proof@[1].path.len(),
{
}

} // verus!
