//! The plan of an aggregate, from the bytes of its inner proofs.
use super::inputs::{
    aggregate_plan, cap_height_of, check_fan_in, check_shape, fan_in_fail, inner_plan, inputs_fail,
    lemma_inputs_fail, plan_inner_sizes, plan_production_aggregate_from_parsed, proof_shape, refused,
    shape_of, trailing_zeros_z, InnerSizes, JoinSplitAggregateInput, OuterSizes, ProductionParams,
};
use super::options::{
    AggregationError, ProductionAggregateResourcePlan, TraceResourceEstimate, NUM_QUERIES,
};
use super::tiling::InnerShape;
use super::window::{validate_binary_fri_shape, wide_query};
use crate::challenger::ready;
use crate::decode::{decoded, fri_z, hiding_proof, parse_hiding_proof};
use crate::field::ints;
use crate::plain_proof::{
    codewords_are_ok, codewords_ok, hiding_opened_exts, hiding_opened_z, PlainProof,
};
use crate::poseidon2::BLOCK;
use crate::replay::{at_challenge, at_index, hiding_script, sim_full_hiding, Replay, Script};
use vstd::prelude::*;

verus! {

/// The blocks that the challenges of a script are read from.
pub open spec fn script_binds(s: Script) -> Seq<usize> {
    Seq::new(
        (3 + s.caps.len()) as nat,
        |j: int| (ready(at_challenge(s, j)).blocks.len() - 1) as usize,
    )
}

/// The blocks and the lanes that the query indices of a script are read from.
pub open spec fn script_index_binds(s: Script) -> Seq<(usize, usize)> {
    Seq::new(
        s.queries,
        |q: int|
            {
                let d = ready(at_index(s, q as nat));
                ((d.blocks.len() - 1) as usize, (d.output.len() - 1) as usize)
            },
    )
}

/// Whether a shape is that of a hiding proof: the schedule of its transcript, a term for every value
/// that it opens, and the height of its cap.
pub open spec fn shape_is(s: InnerShape, p: PlainProof, base: int, pvs: Seq<int>) -> bool {
    let played = hiding_script(p, base, pvs);
    &&& s.counts@ == at_index(played, played.queries).counts
    &&& s.binds@ == script_binds(played)
    &&& s.index_binds@ == script_index_binds(played)
    &&& s.n_terms == hiding_opened_z(p).len()
    &&& s.cap_height == trailing_zeros_z(p.trace_cap.len() as int)
}

/// The shape of a hiding proof.
pub fn inner_shape(p: &PlainProof, base: usize, pvs: &[u64]) -> (r: InnerShape)
    requires
        p.fri.query_proofs.len() > 0,
        codewords_ok(*p),
    ensures
        shape_is(r, *p, base as int, ints(pvs@)),
{
    let replay: Replay = sim_full_hiding(p, base, pvs);
    let n_terms: usize = hiding_opened_exts(p).len();
    let cap_height: usize = cap_height_of(p.trace_cap.len());
    proof {
        let played = hiding_script(*p, base as int, ints(pvs@));
        assert(replay.binds@ =~= script_binds(played));
        assert(replay.index_binds@ =~= script_index_binds(played));
    }
    InnerShape {
        counts: replay.counts,
        binds: replay.binds,
        index_binds: replay.index_binds,
        n_terms,
        cap_height,
    }
}

/// A planned inner region: its shape, its trace and its query segment.
#[derive(Debug)]
pub struct PlannedProductionInnerShape {
    pub shape: InnerShape,
    pub trace: TraceResourceEstimate,
    pub query_segment: TraceResourceEstimate,
}

/// Plans an inner region from its proof, with the sizes that the geometry of its trace gives.
pub fn plan_production_inner_shape(
    p: &PlainProof,
    base: usize,
    pvs: &[u64],
    sizes: &InnerSizes,
    limit: usize,
) -> (r: Result<PlannedProductionInnerShape, AggregationError>)
    requires
        p.fri.query_proofs.len() > 0,
        codewords_ok(*p),
    ensures
        ({
            let wide = wide_query(p.fri.query_proofs@, p.fri.query_proofs@.len());
            match r {
                Ok(v) => {
                    &&& wide is None
                    &&& shape_is(v.shape, *p, base as int, ints(pvs@))
                    &&& inner_plan(*sizes, limit)
                        == Ok::<_, AggregationError>((v.trace, v.query_segment))
                },
                Err(e) => if wide is Some {
                    e == (AggregationError::UnsupportedFriArity { log_arity: wide->0 as usize })
                } else {
                    inner_plan(*sizes, limit) == Err::<
                        (TraceResourceEstimate, TraceResourceEstimate),
                        _,
                    >(e)
                },
            }
        }),
{
    match validate_binary_fri_shape(&p.fri) {
        Err(e) => {
            return Err(e);
        },
        Ok(()) => {},
    }
    let shape: InnerShape = inner_shape(p, base, pvs);
    match plan_inner_sizes(sizes, limit) {
        Err(e) => Err(e),
        Ok((trace, query_segment)) => Ok(PlannedProductionInnerShape { shape, trace, query_segment }),
    }
}

/// Parses an input for a plan, and gives its proof.
pub fn parse_proof(input: &JoinSplitAggregateInput, params: &ProductionParams) -> (r: Result<
    PlainProof,
    AggregationError,
>)
    ensures
        match r {
            Ok(p) => {
                &&& refused(*input, *params, true) is None
                &&& decoded_from(p, input.proof_bytes@)
                &&& p.fri.query_proofs.len() == NUM_QUERIES
                &&& p.degree_bits >= params.is_zk
            },
            Err(e) => refused(*input, *params, true) == Some(e),
        },
{
    if input.public_values.len() != params.n_public {
        return Err(AggregationError::WrongPublicValueCount { got: input.public_values.len() });
    }
    let p: PlainProof = match parse_hiding_proof(input.proof_bytes) {
        None => {
            return Err(AggregationError::MalformedInnerProof);
        },
        Some(p) => p,
    };
    let ghost z = hiding_proof(input.proof_bytes@)->0;
    match check_shape(Some(proof_shape(&p)), input.public_values.len(), params, true) {
        Err(e) => Err(e),
        Ok(_) => {
            proof {
                assert(shape_of(z).0 == NUM_QUERIES);
                assert(fri_z(p.fri).2.len() == p.fri.query_proofs.len());
            }
            Ok(p)
        },
    }
}

/// Whether a proof is the one that bytes encode.
pub open spec fn decoded_from(p: PlainProof, bytes: Seq<u8>) -> bool {
    hiding_proof(bytes) is Some && decoded(p, hiding_proof(bytes)->0)
}

/// Whether proofs are those of the inputs.
pub open spec fn decoded_all(proofs: Seq<PlainProof>, inputs: Seq<JoinSplitAggregateInput>) -> bool {
    &&& proofs.len() == inputs.len()
    &&& forall|i: int|
        0 <= i < proofs.len() ==> decoded_from(#[trigger] proofs[i], inputs[i].proof_bytes@)
}

/// Whether every proof has the random codewords that its openings call for.
pub open spec fn all_codewords(proofs: Seq<PlainProof>) -> bool {
    forall|i: int| 0 <= i < proofs.len() ==> codewords_ok(#[trigger] proofs[i])
}

/// Whether shapes are those of the proofs.
pub open spec fn shapes_are(
    shapes: Seq<InnerShape>,
    proofs: Seq<PlainProof>,
    inputs: Seq<JoinSplitAggregateInput>,
    is_zk: int,
) -> bool {
    &&& shapes.len() == proofs.len()
    &&& forall|i: int|
        0 <= i < shapes.len() ==> shape_is(
            #[trigger] shapes[i],
            proofs[i],
            proofs[i].degree_bits - is_zk,
            ints(inputs[i].public_values@),
        )
}

/// What the inputs of a plan are refused for: their number, or the first that is refused. No verifier
/// is asked.
pub open spec fn plan_refused(
    inputs: Seq<JoinSplitAggregateInput>,
    params: ProductionParams,
) -> Option<AggregationError> {
    match fan_in_fail(inputs.len() as int) {
        Some(e) => Some(e),
        None => inputs_fail(
            inputs,
            Seq::new(inputs.len(), |i: int| true),
            params,
            true,
            inputs.len(),
        ),
    }
}

/// Parses the inputs of a plan, and gives their shapes; nothing where a proof lacks random codewords
/// that its openings call for.
pub fn parse_and_plan_production_inputs(
    inputs: &[JoinSplitAggregateInput],
    params: &ProductionParams,
) -> (r: Result<Option<Vec<InnerShape>>, AggregationError>)
    ensures
        match r {
            Err(e) => plan_refused(inputs@, *params) == Some(e),
            Ok(v) => {
                &&& plan_refused(inputs@, *params) is None
                &&& exists|proofs: Seq<PlainProof>|
                    {
                        &&& #[trigger] decoded_all(proofs, inputs@)
                        &&& v is Some == all_codewords(proofs)
                        &&& v is Some ==> shapes_are(
                            v->0@,
                            proofs,
                            inputs@,
                            params.is_zk as int,
                        )
                    }
            },
        },
{
    match check_fan_in(inputs.len()) {
        Err(e) => {
            return Err(e);
        },
        Ok(()) => {},
    }
    let n: usize = inputs.len();
    let ghost verdicts = Seq::new(inputs@.len(), |i: int| true);
    let mut proofs: Vec<PlainProof> = Vec::new();
    for i in 0..n
        invariant
            n == inputs@.len(),
            verdicts == Seq::new(inputs@.len(), |i: int| true),
            fan_in_fail(n as int) is None,
            inputs_fail(inputs@, verdicts, *params, true, i as nat) is None,
            proofs.len() == i,
            forall|j: int|
                0 <= j < i ==> {
                    &&& decoded_from(#[trigger] proofs@[j], inputs@[j].proof_bytes@)
                    &&& proofs@[j].fri.query_proofs.len() == NUM_QUERIES
                    &&& proofs@[j].degree_bits >= params.is_zk
                },
    {
        match parse_proof(&inputs[i], params) {
            Err(e) => {
                proof {
                    lemma_inputs_fail(
                        inputs@,
                        verdicts,
                        *params,
                        true,
                        (i + 1) as nat,
                        n as nat,
                    );
                }
                return Err(e);
            },
            Ok(p) => {
                proofs.push(p);
            },
        }
    }
    assert(decoded_all(proofs@, inputs@));
    let mut shapes: Vec<InnerShape> = Vec::new();
    for i in 0..n
        invariant
            n == inputs@.len(),
            n == proofs.len(),
            plan_refused(inputs@, *params) is None,
            decoded_all(proofs@, inputs@),
            forall|j: int|
                0 <= j < n ==> {
                    &&& (#[trigger] proofs@[j]).fri.query_proofs.len() == NUM_QUERIES
                    &&& proofs@[j].degree_bits >= params.is_zk
                },
            forall|j: int| 0 <= j < i ==> codewords_ok(#[trigger] proofs@[j]),
            shapes.len() == i,
            forall|j: int|
                0 <= j < i ==> shape_is(
                    #[trigger] shapes@[j],
                    proofs@[j],
                    proofs@[j].degree_bits - params.is_zk,
                    ints(inputs@[j].public_values@),
                ),
    {
        if !codewords_are_ok(&proofs[i]) {
            assert(!codewords_ok(proofs@[i as int]));
            assert(!all_codewords(proofs@));
            return Ok(None);
        }
        let base: usize = proofs[i].degree_bits - params.is_zk;
        shapes.push(inner_shape(&proofs[i], base, inputs[i].public_values));
    }
    proof {
        assert(all_codewords(proofs@));
        assert(shapes_are(shapes@, proofs@, inputs@, params.is_zk as int));
    }
    Ok(Some(shapes))
}

/// Plans an aggregate of production proofs, with the sizes that the geometry of the inner traces and of
/// the aggregate give; nothing where a proof lacks random codewords that its openings call for.
pub fn plan_joinsplit_aggregate_production(
    inputs: &[JoinSplitAggregateInput],
    params: &ProductionParams,
    sizes: &Vec<InnerSizes>,
    outer: &OuterSizes,
    limit: usize,
) -> (r: Result<Option<ProductionAggregateResourcePlan>, AggregationError>)
    requires
        sizes.len() == inputs@.len(),
        outer.fold_block * BLOCK <= usize::MAX,
        outer.tr + outer.n_queries * outer.m_period <= usize::MAX,
    ensures
        match plan_refused(inputs@, *params) {
            Some(e) => r == Err::<Option<ProductionAggregateResourcePlan>, _>(e),
            None => exists|proofs: Seq<PlainProof>|
                #[trigger] decoded_all(proofs, inputs@) && if all_codewords(proofs) {
                    exists|shapes: Seq<InnerShape>| #[trigger]
                        shapes_are(shapes, proofs, inputs@, params.is_zk as int) && r == (
                        match aggregate_plan(shapes, sizes@, *outer, limit) {
                            Ok(plan) => Ok(Some(plan)),
                            Err(e) => Err(e),
                        })
                } else {
                    r == Ok::<Option<ProductionAggregateResourcePlan>, AggregationError>(None)
                },
        },
{
    match parse_and_plan_production_inputs(inputs, params) {
        Err(e) => Err(e),
        Ok(None) => Ok(None),
        Ok(Some(shapes)) => {
            let r = match plan_production_aggregate_from_parsed(&shapes, sizes, outer, limit) {
                Ok(plan) => Ok(Some(plan)),
                Err(e) => Err(e),
            };
            proof {
                let proofs = choose|proofs: Seq<PlainProof>|
                    {
                        &&& #[trigger] decoded_all(proofs, inputs@)
                        &&& all_codewords(proofs)
                        &&& shapes_are(shapes@, proofs, inputs@, params.is_zk as int)
                    };
                assert(decoded_all(proofs, inputs@));
                assert(shapes_are(shapes@, proofs, inputs@, params.is_zk as int));
            }
            r
        },
    }
}

} // verus!
