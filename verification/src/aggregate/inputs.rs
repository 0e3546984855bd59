//! The inputs of an aggregation: their number, their shape, and the root of their statements.
use super::fault::{CheckedShape, LayoutFault};
use super::input_laws::{law_inputs_taken, law_padding_taken};
use super::options::{
    trace_resource_estimate_with_limit, estimate_z, AggregationError,
    ProductionAggregateResourcePlan, TraceResourceEstimate, BLOWUP, CAP_HEIGHT, NUM_QUERIES,
};
use super::shape::{shape_fail, validate_production_joinsplit_shape};
use super::tiling::{oracle_root, InnerShape};
use crate::cols::{is_pow2, is_power_of_two, lemma_np2, next_power_of_two, np2};
use crate::field::{cong, feq, ints, P};
use crate::merkle::Digest;
use crate::mmcs::{Compression, Packed, Pair, Sponge, Tree};
use crate::monolith::geometry::MAX_AGG_TILES;
use crate::poseidon2::BLOCK;
use crate::decode::{
    bare_proof, decoded, fri_z, hiding_proof, parse_bare_proof, parse_hiding_proof, query_z, RawZ,
};
use crate::plain_proof::{PlainProof, QueryProof};
use p3_challenger::DuplexChallenger;
use p3_commit::ExtensionMmcs;
use p3_dft::Radix2DitParallel;
use p3_fri::{HidingFriPcs, TwoAdicFriPcs};
use p3_goldilocks::{Goldilocks, Poseidon2Goldilocks};
use p3_merkle_tree::MerkleTreeHidingMmcs;
use p3_uni_stark::StarkConfig;
use rand_chacha::ChaCha20Rng;
use vstd::prelude::*;

verus! {

/// What an aggregation takes of a proof: its bytes and its public values.
#[derive(Clone, Copy, Debug)]
pub struct JoinSplitAggregateInput<'a> {
    pub proof_bytes: &'a [u8],
    pub public_values: &'a [u64],
}

/// What is admitted: the root of the statements, and their number.
#[derive(Debug, Clone, Copy, PartialEq, Eq)]
pub struct ProductionAggregateAdmission {
    pub tx_root: Digest,
    pub n_inputs: usize,
}

/// What the checks read of a hiding proof: the queries, the roots of the trace cap, the degree, whether
/// the random commitment and the random values are there, and the arities of every query's rounds.
#[derive(Debug)]
pub struct ProofShape {
    pub queries: usize,
    pub cap_len: usize,
    pub degree_bits: usize,
    pub random_cap: bool,
    pub random_values: bool,
    pub log_arities: Vec<Vec<u8>>,
}

impl View for ProofShape {
    type V = (int, int, int, bool, bool, Seq<Seq<u8>>);

    open spec fn view(&self) -> (int, int, int, bool, bool, Seq<Seq<u8>>) {
        (
            self.queries as int,
            self.cap_len as int,
            self.degree_bits as int,
            self.random_cap,
            self.random_values,
            Seq::new(self.log_arities@.len(), |q: int| self.log_arities@[q]@),
        )
    }
}

pub open spec fn shape_view(s: Option<ProofShape>) -> Option<
    (int, int, int, bool, bool, Seq<Seq<u8>>),
> {
    match s {
        Some(v) => Some(v@),
        None => None,
    }
}

/// The shape of the hiding proof that bytes encode, where they encode one.
pub open spec fn hiding_shape(bytes: Seq<u8>) -> Option<
    (int, int, int, bool, bool, Seq<Seq<u8>>),
> {
    match hiding_proof(bytes) {
        Some(z) => Some(shape_of(z)),
        None => None,
    }
}

/// The shape of a decoded proof.
pub open spec fn shape_of(z: RawZ) -> (int, int, int, bool, bool, Seq<Seq<u8>>) {
    let queries = z.2.1.2;
    (
        queries.len() as int,
        z.0.0.len() as int,
        z.3 as int,
        z.0.2 is Some,
        z.1.5 is Some,
        Seq::new(
            queries.len(),
            |q: int| Seq::new(queries[q].1.len(), |i: int| queries[q].1[i].0),
        ),
    )
}

/// The hash and the sponge of the transcript, as p3-challenger has them.
pub type Transcript = DuplexChallenger<Goldilocks, Poseidon2Goldilocks<8>, 8, 4>;

/// The proofs of the production configuration.
pub type HidingMmcs = MerkleTreeHidingMmcs<
    Packed,
    Packed,
    Sponge,
    Compression,
    ChaCha20Rng,
    2,
    4,
    4,
>;

pub type HidingPcs = HidingFriPcs<
    Goldilocks,
    Radix2DitParallel<Goldilocks>,
    HidingMmcs,
    ExtensionMmcs<Goldilocks, Pair, HidingMmcs>,
    ChaCha20Rng,
>;

pub type HidingConfig = StarkConfig<HidingPcs, Pair, Transcript>;

/// The shape of a proof.
pub fn proof_shape(p: &PlainProof) -> (r: ProofShape)
    ensures
        forall|z: RawZ| #[trigger] decoded(*p, z) ==> r@ == shape_of(z),
{
    let queries: usize = p.fri.query_proofs.len();
    let mut log_arities: Vec<Vec<u8>> = Vec::new();
    for q in 0..queries
        invariant
            queries == p.fri.query_proofs.len(),
            log_arities.len() == q,
            forall|j: int|
                0 <= j < q ==> (#[trigger] log_arities@[j])@ == query_arities(
                    p.fri.query_proofs@[j],
                ),
    {
        let n: usize = p.fri.query_proofs[q].commit_phase_openings.len();
        let mut row: Vec<u8> = Vec::new();
        for i in 0..n
            invariant
                q < p.fri.query_proofs.len(),
                n == p.fri.query_proofs@[q as int].commit_phase_openings.len(),
                row@ == query_arities(p.fri.query_proofs@[q as int]).take(i as int),
        {
            row.push(p.fri.query_proofs[q].commit_phase_openings[i].log_arity);
            assert(row@ =~= query_arities(p.fri.query_proofs@[q as int]).take(i + 1));
        }
        assert(row@ =~= query_arities(p.fri.query_proofs@[q as int]));
        log_arities.push(row);
    }
    let r: ProofShape = ProofShape {
        queries,
        cap_len: p.trace_cap.len(),
        degree_bits: p.degree_bits,
        random_cap: p.random_cap.is_some(),
        random_values: p.random.is_some(),
        log_arities,
    };
    proof {
        assert forall|z: RawZ| #[trigger] decoded(*p, z) implies r@ == shape_of(z) by {
            let f = fri_z(p.fri);
            assert(f == z.2.1);
            assert forall|q: int| 0 <= q < queries implies #[trigger] r@.5[q] == shape_of(z).5[q] by {
                assert(f.2[q] == query_z(p.fri.query_proofs@[q]));
                assert(log_arities@[q]@ == query_arities(p.fri.query_proofs@[q]));
                assert(r@.5[q] =~= shape_of(z).5[q]);
            }
            assert(r@.5 =~= shape_of(z).5);
        }
    }
    r
}

/// The arities of the rounds of a query.
pub open spec fn query_arities(q: QueryProof) -> Seq<u8> {
    Seq::new(
        q.commit_phase_openings.len() as nat,
        |i: int| q.commit_phase_openings@[i].log_arity,
    )
}

/// The queries and the roots of the trace cap of the proof without hiding that bytes encode, where they
/// encode one.
pub open spec fn plain_shape(bytes: Seq<u8>) -> Option<(usize, usize)> {
    match bare_proof(bytes) {
        Some(z) => Some((z.2.2.len() as usize, z.0.0.len() as usize)),
        None => None,
    }
}

/// The proofs of the configuration without hiding.
pub type PlainPcs = TwoAdicFriPcs<
    Goldilocks,
    Radix2DitParallel<Goldilocks>,
    Tree,
    ExtensionMmcs<Goldilocks, Pair, Tree>,
>;

pub type PlainConfig = StarkConfig<PlainPcs, Pair, Transcript>;

/// The queries and the roots of the trace cap of the proof without hiding that bytes encode.
fn parse_plain_shape(bytes: &[u8]) -> (r: Option<(usize, usize)>)
    ensures
        r == plain_shape(bytes@),
{
    match parse_bare_proof(bytes) {
        Some(p) => {
            let queries: usize = p.fri.query_proofs.len();
            let roots: usize = p.trace_cap.len();
            proof {
                let z = bare_proof(bytes@)->0;
                assert(fri_z(p.fri).2.len() == queries);
                assert(p.trace_cap.deep_view().len() == roots);
            }
            Some((queries, roots))
        },
        None => None,
    }
}

/// What a number of inputs is refused for.
pub open spec fn fan_in_fail(n: int) -> Option<AggregationError> {
    if n == 0 {
        Some(AggregationError::Empty)
    } else if !is_pow2(n) {
        Some(AggregationError::InvalidFanIn { n: n as usize })
    } else if n > MAX_AGG_TILES {
        Some(AggregationError::TooManyInputs { n: n as usize })
    } else {
        None
    }
}

/// Whether a number of inputs can be aggregated.
pub fn check_fan_in(n: usize) -> (r: Result<(), AggregationError>)
    ensures
        match r {
            Ok(()) => fan_in_fail(n as int) is None,
            Err(e) => fan_in_fail(n as int) == Some(e),
        },
{
    if n == 0 {
        Err(AggregationError::Empty)
    } else if !is_power_of_two(n) {
        Err(AggregationError::InvalidFanIn { n })
    } else if n > MAX_AGG_TILES {
        Err(AggregationError::TooManyInputs { n })
    } else {
        Ok(())
    }
}

/// The zeros that a number ends in; the width of the machine word for zero itself.
pub open spec fn trailing_zeros_z(n: int) -> int
    decreases n,
{
    if n <= 0 {
        usize::BITS as int
    } else if n % 2 == 1 {
        0
    } else {
        1 + trailing_zeros_z(n / 2)
    }
}

/// The height that the roots of a cap stand for.
pub fn cap_height_of(roots: usize) -> (r: usize)
    ensures
        r == trailing_zeros_z(roots as int),
{
    if roots == 0 {
        return usize::BITS as usize;
    }
    let mut k: usize = 0;
    let mut rest: usize = roots;
    while rest % 2 == 0
        invariant
            rest > 0,
            k + rest <= roots,
            k + trailing_zeros_z(rest as int) == trailing_zeros_z(roots as int),
        decreases rest,
    {
        rest = rest / 2;
        k = k + 1;
    }
    k
}

/// What the inner proofs of a production aggregate are held to: the public values of a statement, the
/// quotient chunks of its constraints, and what its verifier takes.
#[derive(Clone, Copy, Debug)]
pub struct ProductionParams {
    pub n_public: usize,
    pub log_num_quotient_chunks: usize,
    pub is_zk: usize,
    pub max_log_degree: usize,
}

/// The first arity of the first `n` rounds that is not that of a pair.
pub open spec fn wide_round(a: Seq<u8>, n: nat) -> Option<u8>
    decreases n,
{
    if n == 0 {
        None
    } else {
        match wide_round(a, (n - 1) as nat) {
            Some(x) => Some(x),
            None => if a[n - 1] != 1 {
                Some(a[n - 1])
            } else {
                None
            },
        }
    }
}

/// The first arity of the first `n` queries that is not that of a pair.
pub open spec fn wide_of(a: Seq<Seq<u8>>, n: nat) -> Option<u8>
    decreases n,
{
    if n == 0 {
        None
    } else {
        match wide_of(a, (n - 1) as nat) {
            Some(x) => Some(x),
            None => wide_round(a[n - 1], a[n - 1].len()),
        }
    }
}

proof fn lemma_wide_round(a: Seq<u8>, k: nat, n: nat)
    requires
        k <= n,
        wide_round(a, k) is Some,
    ensures
        wide_round(a, n) == wide_round(a, k),
    decreases n - k,
{
    if k < n {
        lemma_wide_round(a, k, (n - 1) as nat);
    }
}

proof fn lemma_wide_of(a: Seq<Seq<u8>>, k: nat, n: nat)
    requires
        k <= n,
        wide_of(a, k) is Some,
    ensures
        wide_of(a, n) == wide_of(a, k),
    decreases n - k,
{
    if k < n {
        lemma_wide_of(a, k, (n - 1) as nat);
    }
}

fn first_wide(a: &Vec<Vec<u8>>) -> (r: Option<u8>)
    ensures
        r == wide_of(Seq::new(a@.len(), |q: int| a@[q]@), a@.len()),
{
    let ghost z = Seq::new(a@.len(), |q: int| a@[q]@);
    let n: usize = a.len();
    for q in 0..n
        invariant
            n == a.len(),
            z == Seq::new(a@.len(), |q: int| a@[q]@),
            wide_of(z, q as nat) is None,
    {
        let m: usize = a[q].len();
        for i in 0..m
            invariant
                q < n,
                n == a.len(),
                z == Seq::new(a@.len(), |q: int| a@[q]@),
                m == z[q as int].len(),
                wide_of(z, q as nat) is None,
                wide_round(z[q as int], i as nat) is None,
        {
            let x: u8 = a[q][i];
            if x != 1 {
                proof {
                    lemma_wide_round(z[q as int], (i + 1) as nat, m as nat);
                    lemma_wide_of(z, (q + 1) as nat, n as nat);
                }
                return Some(x);
            }
        }
    }
    None
}

/// What an input is refused for, given the shape that its bytes parsed to. `binary` asks for folds of
/// pairs.
pub open spec fn input_fail_z(
    shape: Option<(int, int, int, bool, bool, Seq<Seq<u8>>)>,
    values: int,
    params: ProductionParams,
    binary: bool,
) -> Option<AggregationError> {
    if values != params.n_public {
        Some(AggregationError::WrongPublicValueCount { got: values as usize })
    } else {
        match shape {
            None => Some(AggregationError::MalformedInnerProof),
            Some((queries, cap_len, degree_bits, random_cap, random_values, arities)) => {
                if queries != NUM_QUERIES {
                    Some(
                        AggregationError::InnerQueryCount {
                            expected: NUM_QUERIES,
                            got: queries as usize,
                        },
                    )
                } else if trailing_zeros_z(cap_len) != CAP_HEIGHT {
                    Some(
                        AggregationError::InnerCapHeight {
                            expected: CAP_HEIGHT,
                            got: trailing_zeros_z(cap_len) as usize,
                        },
                    )
                } else if !random_cap || !random_values {
                    Some(AggregationError::NonHidingInnerProof)
                } else if binary && wide_of(arities, arities.len()) is Some {
                    Some(
                        AggregationError::UnsupportedFriArity {
                            log_arity: wide_of(arities, arities.len())->0 as usize,
                        },
                    )
                } else {
                    match shape_fail(
                        CheckedShape::JoinSplit,
                        params.log_num_quotient_chunks as int,
                        degree_bits,
                        params.is_zk as int,
                        params.max_log_degree as int,
                    ) {
                        Some(f) => Some(AggregationError::TraceLayout(f)),
                        None => None,
                    }
                }
            },
        }
    }
}

/// Whether an input is one that a production aggregate takes, given the shape that its bytes parsed to.
pub fn check_shape(
    shape: Option<ProofShape>,
    values: usize,
    params: &ProductionParams,
    binary: bool,
) -> (r: Result<ProofShape, AggregationError>)
    ensures
        match r {
            Ok(s) => input_fail_z(shape_view(shape), values as int, *params, binary) is None && shape
                == Some(s),
            Err(e) => input_fail_z(shape_view(shape), values as int, *params, binary) == Some(e),
        },
{
    if values != params.n_public {
        return Err(AggregationError::WrongPublicValueCount { got: values });
    }
    let s: ProofShape = match shape {
        None => {
            return Err(AggregationError::MalformedInnerProof);
        },
        Some(s) => s,
    };
    if s.queries != NUM_QUERIES {
        return Err(AggregationError::InnerQueryCount { expected: NUM_QUERIES, got: s.queries });
    }
    let cap: usize = cap_height_of(s.cap_len);
    if cap != CAP_HEIGHT {
        return Err(AggregationError::InnerCapHeight { expected: CAP_HEIGHT, got: cap });
    }
    if !s.random_cap || !s.random_values {
        return Err(AggregationError::NonHidingInnerProof);
    }
    if binary {
        match first_wide(&s.log_arities) {
            Some(a) => {
                return Err(AggregationError::UnsupportedFriArity { log_arity: a as usize });
            },
            None => {},
        }
    }
    match validate_production_joinsplit_shape(
        params.log_num_quotient_chunks,
        s.degree_bits,
        params.is_zk,
        params.max_log_degree,
    ) {
        Err(e) => Err(e),
        Ok(()) => Ok(s),
    }
}

/// What an input is refused for.
pub open spec fn refused(i: JoinSplitAggregateInput, params: ProductionParams, binary: bool) -> Option<
    AggregationError,
> {
    input_fail_z(hiding_shape(i.proof_bytes@), i.public_values@.len() as int, params, binary)
}

/// Parses an input and checks its shape. The bytes are not looked at where the public values have the
/// wrong number.
pub fn parse_input(
    input: &JoinSplitAggregateInput,
    params: &ProductionParams,
    binary: bool,
) -> (r: Result<ProofShape, AggregationError>)
    ensures
        match r {
            Ok(s) => refused(*input, *params, binary) is None && hiding_shape(input.proof_bytes@)
                == Some(s@),
            Err(e) => refused(*input, *params, binary) == Some(e),
        },
{
    if input.public_values.len() != params.n_public {
        return Err(
            AggregationError::WrongPublicValueCount { got: input.public_values.len() },
        );
    }
    let shape: Option<ProofShape> = match parse_hiding_proof(input.proof_bytes) {
        Some(p) => Some(proof_shape(&p)),
        None => None,
    };
    check_shape(shape, input.public_values.len(), params, binary)
}

/// Parses an input for a plan: its rounds must fold pairs.
pub fn parse_production_input_for_plan(
    input: &JoinSplitAggregateInput,
    params: &ProductionParams,
) -> (r: Result<ProofShape, AggregationError>)
    ensures
        match r {
            Ok(s) => refused(*input, *params, true) is None && hiding_shape(input.proof_bytes@)
                == Some(s@),
            Err(e) => refused(*input, *params, true) == Some(e),
        },
{
    parse_input(input, params, true)
}

/// What the first `n` inputs are refused for, each with the verdict of its verifier.
pub open spec fn inputs_fail(
    inputs: Seq<JoinSplitAggregateInput>,
    verdicts: Seq<bool>,
    params: ProductionParams,
    binary: bool,
    n: nat,
) -> Option<AggregationError>
    decreases n,
{
    if n == 0 {
        None
    } else {
        match inputs_fail(inputs, verdicts, params, binary, (n - 1) as nat) {
            Some(e) => Some(e),
            None => match refused(inputs[n - 1], params, binary) {
                Some(e) => Some(e),
                None => if !verdicts[n - 1] {
                    Some(AggregationError::InnerProofRejected)
                } else {
                    None
                },
            },
        }
    }
}

pub proof fn lemma_inputs_fail(
    inputs: Seq<JoinSplitAggregateInput>,
    verdicts: Seq<bool>,
    params: ProductionParams,
    binary: bool,
    k: nat,
    n: nat,
)
    requires
        k <= n,
        inputs_fail(inputs, verdicts, params, binary, k) is Some,
    ensures
        inputs_fail(inputs, verdicts, params, binary, n) == inputs_fail(
            inputs,
            verdicts,
            params,
            binary,
            k,
        ),
    decreases n - k,
{
    if k < n {
        lemma_inputs_fail(inputs, verdicts, params, binary, k, (n - 1) as nat);
    }
}

/// Parses and checks every input, with the verdicts of their verifier. The verdict on an input counts
/// only where its shape is taken.
pub fn check_inputs(
    inputs: &[JoinSplitAggregateInput],
    verdicts: &Vec<bool>,
    params: &ProductionParams,
    binary: bool,
) -> (r: Result<(), AggregationError>)
    requires
        verdicts.len() == inputs@.len(),
    ensures
        match r {
            Ok(()) => inputs_fail(inputs@, verdicts@, *params, binary, inputs@.len()) is None,
            Err(e) => inputs_fail(inputs@, verdicts@, *params, binary, inputs@.len()) == Some(e),
        },
        r is Ok <==> forall|i: int|
            #![trigger inputs@[i]]
            0 <= i < inputs@.len() ==> refused(inputs@[i], *params, binary) is None && verdicts@[i],
{
    proof {
        law_inputs_taken(inputs@, verdicts@, *params, binary, inputs@.len());
    }
    let n: usize = inputs.len();
    for i in 0..n
        invariant
            n == inputs@.len(),
            n == verdicts.len(),
            inputs_fail(inputs@, verdicts@, *params, binary, i as nat) is None,
    {
        match parse_input(&inputs[i], params, binary) {
            Err(e) => {
                proof {
                    lemma_inputs_fail(
                        inputs@,
                        verdicts@,
                        *params,
                        binary,
                        (i + 1) as nat,
                        n as nat,
                    );
                }
                return Err(e);
            },
            Ok(_) => {},
        }
        if !verdicts[i] {
            proof {
                lemma_inputs_fail(inputs@, verdicts@, *params, binary, (i + 1) as nat, n as nat);
            }
            return Err(AggregationError::InnerProofRejected);
        }
    }
    Ok(())
}

/// Admits the inputs of a production aggregate: their number, their shapes, the verdicts of their
/// verifier; and folds the digests of their statements.
pub fn admit_joinsplit_aggregate_production(
    inputs: &[JoinSplitAggregateInput],
    params: &ProductionParams,
    verdicts: &Vec<bool>,
    digests: &Vec<Digest>,
) -> (r: Result<ProductionAggregateAdmission, AggregationError>)
    requires
        verdicts.len() == inputs@.len(),
        digests.len() == inputs@.len(),
    ensures
        ({
            let fail = match fan_in_fail(inputs@.len() as int) {
                Some(e) => Some(e),
                None => inputs_fail(inputs@, verdicts@, *params, false, inputs@.len()),
            };
            match r {
                Err(e) => fail == Some(e),
                Ok(a) => {
                    &&& fail is None
                    &&& a.n_inputs == inputs@.len()
                    &&& ints(a.tx_root@) == oracle_root(digests@, digests@.len())
                },
            }
        }),
        r is Ok ==> 0 < inputs@.len() <= 64 && is_pow2(inputs@.len() as int),
        r is Ok ==> forall|i: int|
            #![trigger inputs@[i]]
            0 <= i < inputs@.len() ==> refused(inputs@[i], *params, false) is None && verdicts@[i],
{
    match check_fan_in(inputs.len()) {
        Err(e) => {
            return Err(e);
        },
        Ok(()) => {},
    }
    match check_inputs(inputs, verdicts, params, false) {
        Err(e) => {
            return Err(e);
        },
        Ok(()) => {},
    }
    let tx_root: Digest = super::tiling::fold_digests(digests);
    Ok(ProductionAggregateAdmission { tx_root, n_inputs: inputs.len() })
}

/// Parses the inputs of a production aggregate, with the verdicts of their verifier where it ran.
pub fn parse_production_inputs(
    inputs: &[JoinSplitAggregateInput],
    params: &ProductionParams,
    verdicts: &Vec<bool>,
) -> (r: Result<(), AggregationError>)
    requires
        verdicts.len() == inputs@.len(),
    ensures
        ({
            let fail = match fan_in_fail(inputs@.len() as int) {
                Some(e) => Some(e),
                None => inputs_fail(inputs@, verdicts@, *params, true, inputs@.len()),
            };
            match r {
                Err(e) => fail == Some(e),
                Ok(()) => fail is None,
            }
        }),
        r is Ok ==> 0 < inputs@.len() <= 64 && is_pow2(inputs@.len() as int),
        r is Ok ==> forall|i: int|
            #![trigger inputs@[i]]
            0 <= i < inputs@.len() ==> refused(inputs@[i], *params, true) is None && verdicts@[i],
{
    match check_fan_in(inputs.len()) {
        Err(e) => Err(e),
        Ok(()) => check_inputs(inputs, verdicts, params, true),
    }
}

/// The root to verify against has four elements.
pub fn check_root_len(got: usize) -> (r: Result<(), AggregationError>)
    ensures
        r == (if got != 4 {
            Err::<(), AggregationError>(AggregationError::WrongPublicValueCount { got })
        } else {
            Ok(())
        }),
{
    if got != 4 {
        Err(AggregationError::WrongPublicValueCount { got })
    } else {
        Ok(())
    }
}

/// What is answered of an aggregate proof, given what its verifier says of the proof that its bytes hold:
/// bytes that hold none are malformed.
pub fn aggregate_verdict(bytes: &[u8], verdict: bool) -> (r: Result<bool, AggregationError>)
    ensures
        r == (if hiding_proof(bytes@) is None {
            Err::<bool, AggregationError>(AggregationError::MalformedAggregateProof)
        } else {
            Ok(verdict)
        }),
{
    match parse_hiding_proof(bytes) {
        Some(_) => Ok(verdict),
        None => Err(AggregationError::MalformedAggregateProof),
    }
}

/// Whether two digests are the same field elements.
pub open spec fn same_digest(a: Seq<u64>, b: Seq<u64>) -> bool {
    forall|k: int| 0 <= k < 4 ==> cong(#[trigger] a[k] as int, b[k] as int)
}

/// What a padding is refused for.
pub open spec fn pad_fail(
    inputs: Seq<JoinSplitAggregateInput>,
    dummy: JoinSplitAggregateInput,
    params: ProductionParams,
    verdicts: Seq<bool>,
    dummy_verdict: bool,
    dummy_digest: Digest,
    canonical: Digest,
) -> Option<AggregationError> {
    let n = inputs.len() as int;
    if n == 0 {
        Some(AggregationError::Empty)
    } else if n > MAX_AGG_TILES {
        Some(AggregationError::TooManyInputs { n: n as usize })
    } else {
        match inputs_fail(inputs, verdicts, params, true, inputs.len()) {
            Some(e) => Some(e),
            None => match refused(dummy, params, true) {
                Some(e) => Some(e),
                None => if !dummy_verdict {
                    Some(AggregationError::InnerProofRejected)
                } else if !same_digest(dummy_digest@, canonical@) {
                    Some(AggregationError::InvalidDummyPadding)
                } else {
                    None
                },
            },
        }
    }
}

/// Pads the inputs of a production aggregate to a power of two with a dummy, whose statement must have
/// the canonical digest.
pub fn pad_joinsplit_aggregate_production_inputs<'a>(
    inputs: &[JoinSplitAggregateInput<'a>],
    dummy: JoinSplitAggregateInput<'a>,
    params: &ProductionParams,
    verdicts: &Vec<bool>,
    dummy_verdict: bool,
    dummy_digest: Digest,
    canonical: Digest,
) -> (r: Result<Vec<JoinSplitAggregateInput<'a>>, AggregationError>)
    requires
        verdicts.len() == inputs@.len(),
    ensures
        ({
            let fail = pad_fail(
                inputs@,
                dummy,
                *params,
                verdicts@,
                dummy_verdict,
                dummy_digest,
                canonical,
            );
            match r {
                Err(e) => fail == Some(e),
                Ok(p) => {
                    &&& fail is None
                    &&& p.len() == np2(inputs@.len() as int)
                    &&& forall|i: int|
                        #![trigger p@[i]]
                        0 <= i < p.len() ==> p@[i] == (if i < inputs@.len() {
                            inputs@[i]
                        } else {
                            dummy
                        })
                },
            }
        }),
        r is Ok <==> {
            &&& 0 < inputs@.len() <= 64
            &&& forall|i: int|
                #![trigger inputs@[i]]
                0 <= i < inputs@.len() ==> refused(inputs@[i], *params, true) is None && verdicts@[i]
            &&& refused(dummy, *params, true) is None
            &&& dummy_verdict
            &&& forall|k: int|
                0 <= k < 4 ==> #[trigger] dummy_digest@[k] as int % (P as int) == canonical@[k] as int
                    % (P as int)
        },
{
    proof {
        law_padding_taken(
            inputs@,
            dummy,
            *params,
            verdicts@,
            dummy_verdict,
            dummy_digest,
            canonical,
        );
    }
    let n: usize = inputs.len();
    if n == 0 {
        return Err(AggregationError::Empty);
    }
    if n > MAX_AGG_TILES {
        return Err(AggregationError::TooManyInputs { n });
    }
    proof {
        lemma_np2(n as int);
        lemma_np2_most(n as int);
    }
    let target: usize = next_power_of_two(n);
    match check_inputs(inputs, verdicts, params, true) {
        Err(e) => {
            return Err(e);
        },
        Ok(()) => {},
    }
    match parse_input(&dummy, params, true) {
        Err(e) => {
            return Err(e);
        },
        Ok(_) => {},
    }
    if !dummy_verdict {
        return Err(AggregationError::InnerProofRejected);
    }
    let (a, b): (Digest, Digest) = (dummy_digest, canonical);
    if !feq(a[0], b[0]) || !feq(a[1], b[1]) || !feq(a[2], b[2]) || !feq(a[3], b[3]) {
        return Err(AggregationError::InvalidDummyPadding);
    }
    let mut out: Vec<JoinSplitAggregateInput<'a>> = Vec::new();
    for i in 0..target
        invariant
            n == inputs@.len(),
            n <= target,
            out.len() == i,
            forall|j: int|
                #![trigger out@[j]]
                0 <= j < i ==> out@[j] == (if j < n {
                    inputs@[j]
                } else {
                    dummy
                }),
    {
        if i < n {
            out.push(inputs[i]);
        } else {
            out.push(dummy);
        }
    }
    Ok(out)
}

/// The next power of two of what fits does not leave the limit.
proof fn lemma_np2_most(n: int)
    requires
        0 < n <= 64,
    ensures
        np2(n) <= 64,
{
    crate::cols::lemma_np2_mono(n, 64);
    assert(is_pow2(64)) by {
        reveal_with_fuel(is_pow2, 7);
    }
    crate::cols::lemma_np2_pow2(64);
}

/// A padded list of inputs has a number that can be aggregated, and padding it again changes nothing.
pub proof fn law_padded_fan_in(n: int)
    requires
        0 < n <= MAX_AGG_TILES,
    ensures
        fan_in_fail(np2(n)) is None,
        np2(np2(n)) == np2(n),
{
    lemma_np2(n);
    lemma_np2_most(n);
    crate::cols::lemma_np2_pow2(np2(n));
}

/// What a research input is refused for, given what its bytes parsed to.
pub open spec fn research_fail(
    shape: Option<(usize, usize)>,
    values: int,
    n_public: int,
    queries: int,
    cap_height: int,
    verdict: bool,
) -> Option<AggregationError> {
    if values != n_public {
        Some(AggregationError::WrongPublicValueCount { got: values as usize })
    } else {
        match shape {
            None => Some(AggregationError::MalformedInnerProof),
            Some((got, cap_len)) => if got != queries {
                Some(AggregationError::InnerQueryCount { expected: queries as usize, got })
            } else if trailing_zeros_z(cap_len as int) != cap_height {
                Some(
                    AggregationError::InnerCapHeight {
                        expected: cap_height as usize,
                        got: trailing_zeros_z(cap_len as int) as usize,
                    },
                )
            } else if !verdict {
                Some(AggregationError::InnerProofRejected)
            } else {
                None
            },
        }
    }
}

/// Whether a research input is taken, given what its bytes parsed to and the verdict of its verifier.
pub fn check_research_shape(
    shape: Option<(usize, usize)>,
    values: usize,
    n_public: usize,
    queries: usize,
    cap_height: usize,
    verdict: bool,
) -> (r: Result<(), AggregationError>)
    ensures
        ({
            let fail = research_fail(
                shape,
                values as int,
                n_public as int,
                queries as int,
                cap_height as int,
                verdict,
            );
            match r {
                Ok(()) => fail is None,
                Err(e) => fail == Some(e),
            }
        }),
{
    if values != n_public {
        return Err(AggregationError::WrongPublicValueCount { got: values });
    }
    match shape {
        None => Err(AggregationError::MalformedInnerProof),
        Some((got, cap_len)) => {
            if got != queries {
                return Err(AggregationError::InnerQueryCount { expected: queries, got });
            }
            let cap: usize = cap_height_of(cap_len);
            if cap != cap_height {
                return Err(AggregationError::InnerCapHeight { expected: cap_height, got: cap });
            }
            if !verdict {
                return Err(AggregationError::InnerProofRejected);
            }
            Ok(())
        },
    }
}

/// What the first `n` research inputs are refused for.
pub open spec fn research_inputs_fail(
    inputs: Seq<JoinSplitAggregateInput>,
    verdicts: Seq<bool>,
    n_public: int,
    queries: int,
    cap_height: int,
    n: nat,
) -> Option<AggregationError>
    decreases n,
{
    if n == 0 {
        None
    } else {
        match research_inputs_fail(
            inputs,
            verdicts,
            n_public,
            queries,
            cap_height,
            (n - 1) as nat,
        ) {
            Some(e) => Some(e),
            None => research_fail(
                plain_shape(inputs[n - 1].proof_bytes@),
                inputs[n - 1].public_values@.len() as int,
                n_public,
                queries,
                cap_height,
                verdicts[n - 1],
            ),
        }
    }
}

proof fn lemma_research_fail(
    inputs: Seq<JoinSplitAggregateInput>,
    verdicts: Seq<bool>,
    n_public: int,
    queries: int,
    cap_height: int,
    k: nat,
    n: nat,
)
    requires
        k <= n,
        research_inputs_fail(inputs, verdicts, n_public, queries, cap_height, k) is Some,
    ensures
        research_inputs_fail(inputs, verdicts, n_public, queries, cap_height, n)
            == research_inputs_fail(inputs, verdicts, n_public, queries, cap_height, k),
    decreases n - k,
{
    if k < n {
        lemma_research_fail(
            inputs,
            verdicts,
            n_public,
            queries,
            cap_height,
            k,
            (n - 1) as nat,
        );
    }
}

/// Parses and checks the inputs of a research aggregate, with the verdicts of their verifier.
pub fn parse_and_verify_inputs(
    inputs: &[JoinSplitAggregateInput],
    options: &super::options::ResearchAggregationOptions,
    n_public: usize,
    verdicts: &Vec<bool>,
) -> (r: Result<(), AggregationError>)
    requires
        verdicts.len() == inputs@.len(),
    ensures
        ({
            let fail = match fan_in_fail(inputs@.len() as int) {
                Some(e) => Some(e),
                None => research_inputs_fail(
                    inputs@,
                    verdicts@,
                    n_public as int,
                    options.inner_num_queries as int,
                    options.inner_cap_height as int,
                    inputs@.len(),
                ),
            };
            match r {
                Err(e) => fail == Some(e),
                Ok(()) => fail is None,
            }
        }),
{
    let n: usize = inputs.len();
    match check_fan_in(n) {
        Err(e) => {
            return Err(e);
        },
        Ok(()) => {},
    }
    let q: usize = options.inner_num_queries;
    let c: usize = options.inner_cap_height;
    for i in 0..n
        invariant
            n == inputs@.len(),
            n == verdicts.len(),
            research_inputs_fail(
                inputs@,
                verdicts@,
                n_public as int,
                q as int,
                c as int,
                i as nat,
            ) is None,
            fan_in_fail(inputs@.len() as int) is None,
            q == options.inner_num_queries,
            c == options.inner_cap_height,
    {
        let shape: Option<(usize, usize)> = parse_plain_shape(inputs[i].proof_bytes);
        match check_research_shape(
            shape,
            inputs[i].public_values.len(),
            n_public,
            q,
            c,
            verdicts[i],
        ) {
            Err(e) => {
                proof {
                    lemma_research_fail(
                        inputs@,
                        verdicts@,
                        n_public as int,
                        q as int,
                        c as int,
                        (i + 1) as nat,
                        n as nat,
                    );
                }
                return Err(e);
            },
            Ok(()) => {},
        }
    }
    Ok(())
}

/// The sizes of an inner region, as the geometry of its trace gives them.
#[derive(Clone, Copy, Debug)]
pub struct InnerSizes {
    pub num_quotient_chunks: usize,
    pub height: usize,
    pub m_period: usize,
    pub fused_w: usize,
}

/// The sizes of the aggregate, as the geometry of its trace gives them.
#[derive(Clone, Copy, Debug)]
pub struct OuterSizes {
    pub height: usize,
    pub fold_w: usize,
    pub fold_block: usize,
    pub tr: usize,
    pub n_queries: usize,
    pub m_period: usize,
}

/// The trace and the query segment of an inner region against a limit, or what it is refused for.
pub open spec fn inner_plan(s: InnerSizes, limit: usize) -> Result<
    (TraceResourceEstimate, TraceResourceEstimate),
    AggregationError,
> {
    if s.num_quotient_chunks > BLOWUP {
        Err(AggregationError::TraceLayout(LayoutFault::QuotientChunkCount))
    } else {
        match estimate_z("hiding inner monolith trace", s.height, s.fused_w, limit) {
            Err(e) => Err(e),
            Ok(t) => match estimate_z(
                "hiding inner monolith query segment",
                s.m_period,
                s.fused_w,
                limit,
            ) {
                Err(e) => Err(e),
                Ok(q) => Ok((t, q)),
            },
        }
    }
}

/// Plans an inner region.
pub fn plan_inner_sizes(s: &InnerSizes, limit: usize) -> (r: Result<
    (TraceResourceEstimate, TraceResourceEstimate),
    AggregationError,
>)
    ensures
        r == inner_plan(*s, limit),
{
    if s.num_quotient_chunks > BLOWUP {
        return Err(AggregationError::TraceLayout(LayoutFault::QuotientChunkCount));
    }
    match trace_resource_estimate_with_limit(
        "hiding inner monolith trace",
        s.height,
        s.fused_w,
        limit,
    ) {
        Err(e) => Err(e),
        Ok(t) => match trace_resource_estimate_with_limit(
            "hiding inner monolith query segment",
            s.m_period,
            s.fused_w,
            limit,
        ) {
            Err(e) => Err(e),
            Ok(q) => Ok((t, q)),
        },
    }
}

/// What the first `n` inner regions are refused for: each is planned, then held against the first.
pub open spec fn plans_fail(
    shapes: Seq<InnerShape>,
    sizes: Seq<InnerSizes>,
    limit: usize,
    n: nat,
) -> Option<AggregationError>
    decreases n,
{
    if n == 0 {
        None
    } else {
        match plans_fail(shapes, sizes, limit, (n - 1) as nat) {
            Some(e) => Some(e),
            None => match inner_plan(sizes[n - 1], limit) {
                Err(e) => Some(e),
                Ok(_) => if !shapes[0].same(shapes[n - 1]) {
                    Some(AggregationError::MismatchedInnerShape)
                } else {
                    None
                },
            },
        }
    }
}

proof fn lemma_plans_fail(
    shapes: Seq<InnerShape>,
    sizes: Seq<InnerSizes>,
    limit: usize,
    k: nat,
    n: nat,
)
    requires
        k <= n,
        plans_fail(shapes, sizes, limit, k) is Some,
    ensures
        plans_fail(shapes, sizes, limit, n) == plans_fail(shapes, sizes, limit, k),
    decreases n - k,
{
    if k < n {
        lemma_plans_fail(shapes, sizes, limit, k, (n - 1) as nat);
    }
}

/// The plan of an aggregate, or what it is refused for.
pub open spec fn aggregate_plan(
    shapes: Seq<InnerShape>,
    sizes: Seq<InnerSizes>,
    outer: OuterSizes,
    limit: usize,
) -> Result<ProductionAggregateResourcePlan, AggregationError> {
    if shapes.len() == 0 {
        Err(AggregationError::Empty)
    } else {
        match plans_fail(shapes, sizes, limit, shapes.len()) {
            Some(e) => Err(e),
            None => if outer.fold_block * BLOCK < outer.tr + outer.n_queries * outer.m_period {
                Err(AggregationError::TraceLayout(LayoutFault::FoldOverlap))
            } else {
                let inner = inner_plan(sizes[0], limit)->Ok_0;
                match estimate_z(
                    "production aggregate folded trace",
                    outer.height,
                    outer.fold_w,
                    limit,
                ) {
                    Err(e) => Err(e),
                    Ok(t) => match estimate_z(
                        "production aggregate query segment",
                        outer.m_period,
                        outer.fold_w,
                        limit,
                    ) {
                        Err(e) => Err(e),
                        Ok(q) => Ok(
                            ProductionAggregateResourcePlan {
                                n_inputs: shapes.len() as usize,
                                inner_trace: inner.0,
                                inner_query_segment: inner.1,
                                aggregate_trace: t,
                                aggregate_query_segment: q,
                            },
                        ),
                    },
                }
            },
        }
    }
}

/// Plans an aggregate from the shapes and sizes of its inner proofs.
pub fn plan_production_aggregate_from_parsed(
    shapes: &Vec<InnerShape>,
    sizes: &Vec<InnerSizes>,
    outer: &OuterSizes,
    limit: usize,
) -> (r: Result<ProductionAggregateResourcePlan, AggregationError>)
    requires
        shapes.len() == sizes.len(),
        outer.fold_block * BLOCK <= usize::MAX,
        outer.tr + outer.n_queries * outer.m_period <= usize::MAX,
    ensures
        r == aggregate_plan(shapes@, sizes@, *outer, limit),
{
    let n: usize = shapes.len();
    if n == 0 {
        return Err(AggregationError::Empty);
    }
    for i in 0..n
        invariant
            n == shapes.len(),
            n == sizes.len(),
            plans_fail(shapes@, sizes@, limit, i as nat) is None,
            i > 0 ==> inner_plan(sizes@[0], limit) is Ok,
    {
        match plan_inner_sizes(&sizes[i], limit) {
            Err(e) => {
                proof {
                    lemma_plans_fail(shapes@, sizes@, limit, (i + 1) as nat, n as nat);
                }
                return Err(e);
            },
            Ok(_) => {},
        }
        if !shapes[0].is_same(&shapes[i]) {
            proof {
                lemma_plans_fail(shapes@, sizes@, limit, (i + 1) as nat, n as nat);
            }
            return Err(AggregationError::MismatchedInnerShape);
        }
    }
    let (inner_trace, inner_query_segment) = match plan_inner_sizes(&sizes[0], limit) {
        Err(e) => {
            return Err(e);
        },
        Ok(p) => p,
    };
    proof {
        assert(0 <= outer.n_queries * outer.m_period) by (nonlinear_arith);
    }
    if outer.fold_block * BLOCK < outer.tr + outer.n_queries * outer.m_period {
        return Err(AggregationError::TraceLayout(LayoutFault::FoldOverlap));
    }
    let aggregate_trace: TraceResourceEstimate = match trace_resource_estimate_with_limit(
        "production aggregate folded trace",
        outer.height,
        outer.fold_w,
        limit,
    ) {
        Err(e) => {
            return Err(e);
        },
        Ok(t) => t,
    };
    let aggregate_query_segment: TraceResourceEstimate = match trace_resource_estimate_with_limit(
        "production aggregate query segment",
        outer.m_period,
        outer.fold_w,
        limit,
    ) {
        Err(e) => {
            return Err(e);
        },
        Ok(t) => t,
    };
    Ok(
        ProductionAggregateResourcePlan {
            n_inputs: n,
            inner_trace,
            inner_query_segment,
            aggregate_trace,
            aggregate_query_segment,
        },
    )
}

} // verus!
