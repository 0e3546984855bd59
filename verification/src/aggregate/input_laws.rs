//! What the inputs of an aggregate are held to, in terms of the inputs alone.
use super::inputs::{
    fan_in_fail, inputs_fail, lemma_inputs_fail, pad_fail, plain_shape, refused, research_fail,
    research_inputs_fail, same_digest, shape_of, trailing_zeros_z, wide_of, wide_round,
    JoinSplitAggregateInput, ProductionParams,
};
use super::options::AggregationError;
use crate::cols::{is_pow2, lemma_np2, np2};
use crate::decode::{bare_proof, hiding_proof};
use crate::field::{cong, P};
use crate::merkle::Digest;
use crate::size_laws::{law_only_powers, law_powers_counted};
use vstd::arithmetic::power2::pow2;
use vstd::prelude::*;

verus! {

/// A number of inputs can be aggregated exactly where it is a power of two of at most 64; none at all is
/// told from a number that is no power of two, and that from too many.
pub proof fn law_fan_in(n: int)
    requires
        0 <= n <= usize::MAX,
    ensures
        fan_in_fail(n) is None <==> n <= 64 && exists|k: nat| n == #[trigger] pow2(k),
        n == 0 ==> fan_in_fail(n) == Some(AggregationError::Empty),
        n > 0 && !(exists|k: nat| n == #[trigger] pow2(k)) ==> fan_in_fail(n) == Some(
            AggregationError::InvalidFanIn { n: n as usize },
        ),
        n > 64 && (exists|k: nat| n == #[trigger] pow2(k)) ==> fan_in_fail(n) == Some(
            AggregationError::TooManyInputs { n: n as usize },
        ),
{
    if is_pow2(n) {
        let k = law_only_powers(n);
        assert(n == pow2(k));
    }
    if exists|k: nat| n == #[trigger] pow2(k) {
        let k = choose|k: nat| n == #[trigger] pow2(k);
        law_powers_counted(k);
        vstd::arithmetic::power2::lemma_pow2_pos(k);
    }
}

/// The roots of a cap stand for a height exactly where that power of two divides their number and the
/// next one does not.
pub proof fn law_cap_height(n: int, h: nat)
    requires
        n > 0,
    ensures
        trailing_zeros_z(n) == h <==> n % (pow2(h) as int) == 0 && (n / (pow2(h) as int)) % 2 == 1,
    decreases n,
{
    vstd::arithmetic::power2::lemma2_to64();
    vstd::arithmetic::power2::lemma_pow2_pos(h);
    if h == 0 {
        vstd::arithmetic::div_mod::lemma_div_basics(n);
        assert(n % 1 == 0);
        if n % 2 == 0 {
            lemma_zeros_nonneg(n / 2);
        }
    } else {
        let j = (h - 1) as nat;
        let p = pow2(j) as int;
        vstd::arithmetic::power2::lemma_pow2_unfold(h);
        vstd::arithmetic::power2::lemma_pow2_pos(j);
        if n % 2 == 1 {
            assert(n % (2 * p) != 0) by {
                vstd::arithmetic::div_mod::lemma_fundamental_div_mod(n, 2 * p);
                let q = n / (2 * p);
                assert((2 * p) * q == 2 * (p * q)) by (nonlinear_arith);
            }
        } else {
            law_cap_height(n / 2, j);
            vstd::arithmetic::div_mod::lemma_div_denominator(n, 2, p);
            vstd::arithmetic::div_mod::lemma_breakdown(n, 2, p);
        }
    }
}

proof fn lemma_zeros_nonneg(n: int)
    requires
        n >= 0,
    ensures
        trailing_zeros_z(n) >= 0,
    decreases n,
{
    if n > 0 && n % 2 == 0 {
        lemma_zeros_nonneg(n / 2);
    }
}

/// No round is wide exactly where all fold pairs.
pub proof fn law_pairs_only(a: Seq<Seq<u8>>)
    ensures
        wide_of(a, a.len()) is None <==> forall|q: int, i: int|
            0 <= q < a.len() && 0 <= i < a[q].len() ==> #[trigger] a[q][i] == 1,
{
    lemma_wide_queries(a, a.len());
}

proof fn lemma_wide_rounds(a: Seq<u8>, n: nat)
    requires
        n <= a.len(),
    ensures
        wide_round(a, n) is None <==> forall|i: int| 0 <= i < n ==> #[trigger] a[i] == 1,
    decreases n,
{
    if n > 0 {
        lemma_wide_rounds(a, (n - 1) as nat);
    }
}

proof fn lemma_wide_queries(a: Seq<Seq<u8>>, n: nat)
    requires
        n <= a.len(),
    ensures
        wide_of(a, n) is None <==> forall|q: int, i: int|
            0 <= q < n && 0 <= i < a[q].len() ==> #[trigger] a[q][i] == 1,
    decreases n,
{
    if n > 0 {
        let m = (n - 1) as nat;
        lemma_wide_queries(a, m);
        lemma_wide_rounds(a[m as int], a[m as int].len());
        if wide_of(a, n) is None {
            assert forall|q: int, i: int| 0 <= q < n && 0 <= i < a[q].len() implies #[trigger] a[q][i]
                == 1 by {
                if q == m {
                    assert(a[m as int][i] == 1);
                }
            }
        }
    }
}

/// An input is taken exactly where it has as many public values as a statement, and bytes that decode to
/// a proof with the queries and the cap of production, a random commitment with its opened values, folds
/// of pairs where they are asked for, and a quotient and a degree that the verifier takes.
pub proof fn law_input_taken(i: JoinSplitAggregateInput, params: ProductionParams, binary: bool)
    ensures
        refused(i, params, binary) is None <==> {
            &&& i.public_values@.len() == params.n_public
            &&& hiding_proof(i.proof_bytes@) matches Some(z) && {
                let queries = z.2.1.2;
                &&& queries.len() == 96
                &&& z.0.0.len() % 64 == 0
                &&& (z.0.0.len() / 64) % 2 == 1
                &&& z.0.2 is Some
                &&& z.1.5 is Some
                &&& binary ==> forall|q: int, k: int|
                    0 <= q < queries.len() && 0 <= k < queries[q].1.len() ==> (
                    #[trigger] queries[q].1[k]).0 == 1
                &&& params.log_num_quotient_chunks <= 4
                &&& params.is_zk <= z.3 <= params.max_log_degree
                &&& z.3 < usize::BITS
            }
        },
{
    if i.public_values@.len() == params.n_public && hiding_proof(i.proof_bytes@) is Some {
        let z = hiding_proof(i.proof_bytes@)->0;
        let queries = z.2.1.2;
        let arities = shape_of(z).5;
        vstd::arithmetic::power2::lemma2_to64();
        if z.0.0.len() > 0 {
            law_cap_height(z.0.0.len() as int, 6);
        }
        law_pairs_only(arities);
        if forall|q: int, k: int|
            0 <= q < arities.len() && 0 <= k < arities[q].len() ==> #[trigger] arities[q][k] == 1 {
            assert forall|q: int, k: int|
                0 <= q < queries.len() && 0 <= k < queries[q].1.len() implies (
            #[trigger] queries[q].1[k]).0 == 1 by {
                assert(arities[q][k] == queries[q].1[k].0);
            }
        }
        if forall|q: int, k: int|
            0 <= q < queries.len() && 0 <= k < queries[q].1.len() ==> (
            #[trigger] queries[q].1[k]).0 == 1 {
            assert forall|q: int, k: int|
                0 <= q < arities.len() && 0 <= k < arities[q].len() implies #[trigger] arities[q][k]
                == 1 by {
                assert(queries[q].1[k].0 == 1);
            }
        }
    }
}

/// The inputs are taken exactly where each of them is and its verifier accepts it.
pub proof fn law_inputs_taken(
    inputs: Seq<JoinSplitAggregateInput>,
    verdicts: Seq<bool>,
    params: ProductionParams,
    binary: bool,
    n: nat,
)
    requires
        n <= inputs.len(),
    ensures
        inputs_fail(inputs, verdicts, params, binary, n) is None <==> forall|i: int|
            #![trigger inputs[i]]
            0 <= i < n ==> refused(inputs[i], params, binary) is None && verdicts[i],
    decreases n,
{
    if n > 0 {
        law_inputs_taken(inputs, verdicts, params, binary, (n - 1) as nat);
    }
}

/// What inputs are refused for is what the first of them is refused for that is not taken: its own shape,
/// or else its verifier's verdict.
pub proof fn law_first_refused(
    inputs: Seq<JoinSplitAggregateInput>,
    verdicts: Seq<bool>,
    params: ProductionParams,
    binary: bool,
    n: nat,
    k: int,
)
    requires
        0 <= k < n <= inputs.len(),
        forall|i: int|
            #![trigger inputs[i]]
            0 <= i < k ==> refused(inputs[i], params, binary) is None && verdicts[i],
        refused(inputs[k], params, binary) is Some || !verdicts[k],
    ensures
        refused(inputs[k], params, binary) is Some ==> inputs_fail(
            inputs,
            verdicts,
            params,
            binary,
            n,
        ) == refused(inputs[k], params, binary),
        refused(inputs[k], params, binary) is None ==> inputs_fail(
            inputs,
            verdicts,
            params,
            binary,
            n,
        ) == Some(AggregationError::InnerProofRejected),
{
    law_inputs_taken(inputs, verdicts, params, binary, k as nat);
    lemma_inputs_fail(inputs, verdicts, params, binary, (k + 1) as nat, n);
}

/// Inputs are padded exactly where there are some, but no more than 64; each of them is taken and its
/// verifier accepts it; the dummy is taken and its verifier accepts it; and its statement has the
/// canonical digest.
pub proof fn law_padding_taken(
    inputs: Seq<JoinSplitAggregateInput>,
    dummy: JoinSplitAggregateInput,
    params: ProductionParams,
    verdicts: Seq<bool>,
    dummy_verdict: bool,
    dummy_digest: Digest,
    canonical: Digest,
)
    ensures
        pad_fail(
            inputs,
            dummy,
            params,
            verdicts,
            dummy_verdict,
            dummy_digest,
            canonical,
        ) is None <==> {
            &&& 0 < inputs.len() <= 64
            &&& forall|i: int|
                #![trigger inputs[i]]
                0 <= i < inputs.len() ==> refused(inputs[i], params, true) is None && verdicts[i]
            &&& refused(dummy, params, true) is None
            &&& dummy_verdict
            &&& forall|k: int|
                0 <= k < 4 ==> #[trigger] dummy_digest@[k] as int % (P as int) == canonical@[k] as int
                    % (P as int)
        },
{
    law_inputs_taken(inputs, verdicts, params, true, inputs.len());
    if forall|k: int|
        0 <= k < 4 ==> #[trigger] dummy_digest@[k] as int % (P as int) == canonical@[k] as int % (
        P as int) {
        assert forall|k: int| 0 <= k < 4 implies cong(
            #[trigger] dummy_digest@[k] as int,
            canonical@[k] as int,
        ) by {}
    }
    if same_digest(dummy_digest@, canonical@) {
        assert forall|k: int| 0 <= k < 4 implies #[trigger] dummy_digest@[k] as int % (P as int)
            == canonical@[k] as int % (P as int) by {
            assert(cong(dummy_digest@[k] as int, canonical@[k] as int));
        }
    }
}

/// Where the inputs are taken, a dummy is refused for its shape; one of acceptable shape that its
/// verifier does not accept is rejected like any inner proof; and only then is its digest looked at.
pub proof fn law_dummy_refused(
    inputs: Seq<JoinSplitAggregateInput>,
    dummy: JoinSplitAggregateInput,
    params: ProductionParams,
    verdicts: Seq<bool>,
    dummy_verdict: bool,
    dummy_digest: Digest,
    canonical: Digest,
)
    requires
        0 < inputs.len() <= 64,
        forall|i: int|
            #![trigger inputs[i]]
            0 <= i < inputs.len() ==> refused(inputs[i], params, true) is None && verdicts[i],
    ensures
        ({
            let fail = pad_fail(
                inputs,
                dummy,
                params,
                verdicts,
                dummy_verdict,
                dummy_digest,
                canonical,
            );
            &&& refused(dummy, params, true) is Some ==> fail == refused(dummy, params, true)
            &&& refused(dummy, params, true) is None && !dummy_verdict ==> fail == Some(
                AggregationError::InnerProofRejected,
            )
            &&& refused(dummy, params, true) is None && dummy_verdict && (exists|k: int|
                0 <= k < 4 && #[trigger] dummy_digest@[k] as int % (P as int) != canonical@[k] as int
                    % (P as int)) ==> fail == Some(AggregationError::InvalidDummyPadding)
        }),
{
    law_inputs_taken(inputs, verdicts, params, true, inputs.len());
    if exists|k: int|
        0 <= k < 4 && #[trigger] dummy_digest@[k] as int % (P as int) != canonical@[k] as int % (
        P as int) {
        let k = choose|k: int|
            0 <= k < 4 && #[trigger] dummy_digest@[k] as int % (P as int) != canonical@[k] as int % (
            P as int);
        assert(!cong(dummy_digest@[k] as int, canonical@[k] as int));
    }
}

/// A padded list has the smallest power of two of inputs that holds them all.
pub proof fn law_padded_length(n: int)
    requires
        n > 0,
    ensures
        np2(n) >= n,
        np2(n) < 2 * n,
        exists|k: nat| np2(n) == #[trigger] pow2(k),
        forall|k: nat| #[trigger] pow2(k) >= n ==> np2(n) <= pow2(k),
{
    lemma_np2(n);
    let k = law_only_powers(np2(n));
    assert(np2(n) == pow2(k));
    assert forall|j: nat| #[trigger] pow2(j) >= n implies np2(n) <= pow2(j) by {
        law_powers_counted(j);
        crate::cols::lemma_np2_mono(n, pow2(j) as int);
        crate::cols::lemma_np2_pow2(pow2(j) as int);
    }
}

/// A research input is taken exactly where it has as many public values as a statement, bytes that decode
/// to a proof with the queries and the cap that are asked for, and a verifier that accepts it.
pub proof fn law_research_taken(
    i: JoinSplitAggregateInput,
    n_public: int,
    queries: int,
    cap_height: nat,
    verdict: bool,
)
    requires
        bare_proof(i.proof_bytes@) matches Some(z) ==> 0 < z.0.0.len() <= usize::MAX && z.2.2.len()
            <= usize::MAX,
    ensures
        research_fail(
            plain_shape(i.proof_bytes@),
            i.public_values@.len() as int,
            n_public,
            queries,
            cap_height as int,
            verdict,
        ) is None <==> {
            &&& i.public_values@.len() == n_public
            &&& bare_proof(i.proof_bytes@) matches Some(z) && {
                &&& z.2.2.len() == queries
                &&& z.0.0.len() % pow2(cap_height) == 0
                &&& (z.0.0.len() / pow2(cap_height)) % 2 == 1
            }
            &&& verdict
        },
{
    if bare_proof(i.proof_bytes@) is Some {
        let z = bare_proof(i.proof_bytes@)->0;
        vstd::arithmetic::power2::lemma_pow2_pos(cap_height);
        law_cap_height(z.0.0.len() as int, cap_height);
    }
}

/// Research inputs are taken exactly where each of them is.
pub proof fn law_research_all(
    inputs: Seq<JoinSplitAggregateInput>,
    verdicts: Seq<bool>,
    n_public: int,
    queries: int,
    cap_height: int,
    n: nat,
)
    requires
        n <= inputs.len(),
    ensures
        research_inputs_fail(inputs, verdicts, n_public, queries, cap_height, n) is None <==> forall|
            i: int,
        |
            #![trigger inputs[i]]
            0 <= i < n ==> research_fail(
                plain_shape(inputs[i].proof_bytes@),
                inputs[i].public_values@.len() as int,
                n_public,
                queries,
                cap_height,
                verdicts[i],
            ) is None,
    decreases n,
{
    if n > 0 {
        law_research_all(inputs, verdicts, n_public, queries, cap_height, (n - 1) as nat);
    }
}

} // verus!
