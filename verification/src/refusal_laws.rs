//! Laws on refusals: what a proof is refused for, check by check in their order.
use crate::challenger::{
    after_ext, observed, observed_all, observed_exts, sampled, sampled_ext, views, Duplex,
};
use crate::epilogue::{const_holds, const_outcome, hiding_outcome};
use crate::field::{ered, Challenge};
use crate::fri_input::{
    all_terms, batch_fail, batch_index, batches_fail, deep_point, dims_z, input_fail, mats_fail,
    points_fail, reached, OpenedBatch,
};
use crate::fri_query::{epow2k, fold_run, fold_step, query_fold, CommitStep, Fold, FriError, FriParams};
use crate::fri_verify::{fri_run, round_count, rounds_run, tallest, witness_ok};
use crate::mmcs::{opening_accepts, rows_z};
use crate::monolith::query::opening_of;
use crate::plain_proof::{arities_z, cap_z, sum_z, BatchOpening, FriProof, PlainProof};
use crate::stark::{
    before_alpha, before_zeta, observed_coms, rounds_fail, OpeningRounds, ProofError,
};
use vstd::arithmetic::power2::pow2;
use vstd::prelude::*;

verus! {

/// What the low-degree test is refused for before its queries: no queries asked for, a query that does
/// not open every commit round, another height than that of the matrices, a commit round, another length
/// of the final polynomial, another number of queries, and the proof of work, in this order.
pub proof fn law_fri_refused(d: Duplex, params: FriParams, f: FriProof, coms: Seq<OpenedBatch>)
    ensures
        ({
            let fail = fri_run(d, params, f, coms).fail;
            let b = params.log_blowup as int;
            let top = tallest(coms, b, coms.len());
            let height = sum_z(arities_z(f), arities_z(f).len()) + b + params.log_final_poly_len;
            let rounds = rounds_run(after_ext(d), params, f, round_count(f));
            let fed = observed_all(observed_exts(rounds.sponge, views(f.final_poly@)), arities_z(f));
            let bits = params.query_pow_bits as int;
            let uneven = exists|q: int|
                0 <= q < f.query_proofs.len() && (
                #[trigger] f.query_proofs@[q]).commit_phase_openings.len()
                    != f.commit_phase_commits@.len();
            let opened = params.num_queries > 0 && !uneven;
            let high = opened && height == top;
            let committed = high && rounds.fail is None;
            let short = committed && f.final_poly.len() == pow2(params.log_final_poly_len as nat);
            let counted = short && f.query_proofs.len() == params.num_queries;
            &&& params.num_queries == 0 ==> fail == Some(FriError::ZeroQueries)
            &&& params.num_queries > 0 && uneven ==> fail == Some(FriError::OpeningCount)
            &&& opened && height != top ==> fail == Some(
                FriError::GlobalHeight { got: height as usize, expected: top as usize },
            )
            &&& high && rounds.fail is Some ==> fail == rounds.fail
            &&& committed && f.final_poly.len() != pow2(params.log_final_poly_len as nat) ==> fail
                == Some(FriError::FinalPolyLength)
            &&& short && f.query_proofs.len() != params.num_queries ==> fail == Some(
                FriError::QueryCount,
            )
            &&& counted && bits > 0 && sampled(observed(fed, f.query_pow_witness as int)) % (pow2(
                bits as nat,
            ) as int) != 0 ==> fail == Some(FriError::QueryPow)
        }),
{
}

/// What the commit rounds are refused for: the first whose proof of work does not hold.
pub proof fn law_commit_refused(d: Duplex, params: FriParams, f: FriProof, n: nat)
    ensures
        ({
            let before = rounds_run(d, params, f, n);
            let seen = observed_all(
                before.sponge,
                cap_z(f.commit_phase_commits@[n as int]@),
            );
            let held = witness_ok(
                seen,
                params.commit_pow_bits as int,
                f.commit_pow_witnesses@[n as int] as int,
            );
            &&& before.fail is Some ==> rounds_run(d, params, f, n + 1).fail == before.fail
            &&& before.fail is None && !held ==> rounds_run(d, params, f, n + 1).fail == Some(
                FriError::CommitPow,
            )
        }),
{
}

/// What the openings of a query are refused for: another number of batches, the first batch that is
/// refused, or an opening at the height of the blowup that is not zero.
pub proof fn law_inputs_refused(
    proofs: Seq<BatchOpening>,
    coms: Seq<OpenedBatch>,
    params: FriParams,
    index: int,
    log_global: int,
    alpha: (int, int),
    n: nat,
)
    ensures
        ({
            let fail = input_fail(proofs, coms, params, index, log_global, alpha);
            let b = params.log_blowup as int;
            let first = batches_fail(proofs, coms, params, index, log_global, coms.len());
            let rest = opening_of(
                all_terms(proofs, coms, b, b, coms.len()),
                deep_point(index, log_global, b),
                alpha,
            );
            let low = reached(coms, b, b, coms.len());
            &&& proofs.len() != coms.len() ==> fail == Some(FriError::BatchCount)
            &&& proofs.len() == coms.len() && first is Some ==> fail == first
            &&& proofs.len() == coms.len() && first is None && low && rest != (0int, 0int) ==> fail
                == Some(FriError::NonzeroBlowup)
            &&& proofs.len() == coms.len() && first is None && (!low || rest == (0int, 0int)) ==> fail
                is None
        }),
        batches_fail(proofs, coms, params, index, log_global, 0) is None,
        ({
            let before = batches_fail(proofs, coms, params, index, log_global, n);
            let next = batches_fail(proofs, coms, params, index, log_global, n + 1);
            &&& before is Some ==> next == before
            &&& before is None ==> next == batch_fail(
                proofs[n as int],
                coms[n as int],
                params,
                index,
                log_global,
            )
        }),
{
}

/// What a batch is refused for: another number of rows than matrices, a matrix without opening points, a
/// path that does not lead to the cap, or the first point of the first matrix that is refused.
pub proof fn law_batch_refused(
    opening: BatchOpening,
    com: OpenedBatch,
    params: FriParams,
    index: int,
    log_global: int,
)
    ensures
        ({
            let fail = batch_fail(opening, com, params, index, log_global);
            let mats = com.mats@;
            let rows = opening.opened_values.len() == mats.len();
            let empty = exists|i: int| 0 <= i < mats.len() && (#[trigger] mats[i]).points.len() == 0;
            let b = params.log_blowup as int;
            let led = opening_accepts(
                params.cap_height as int,
                com.cap@,
                dims_z(mats, b),
                batch_index(mats, b, index, log_global),
                rows_z(opening.opened_values@),
                opening.path@,
            );
            &&& !rows ==> fail == Some(FriError::OpenedCount)
            &&& rows && empty ==> fail == Some(FriError::NoOpeningPoints)
            &&& rows && !empty && !led ==> fail == Some(FriError::InputMerkle)
            &&& rows && !empty && led ==> fail == mats_fail(
                opening.opened_values@,
                mats,
                b,
                index,
                log_global,
                mats.len(),
            )
        }),
{
}

/// What the points of a row are refused for: the first that claims another number of values than the row
/// has, or that is the query's own point.
pub proof fn law_points_refused(
    row: Seq<u64>,
    points: Seq<(Challenge, Vec<Challenge>)>,
    x: int,
    n: nat,
)
    requires
        n < points.len(),
    ensures
        points_fail(row, points, x, 0) is None,
        ({
            let before = points_fail(row, points, x, n);
            let next = points_fail(row, points, x, n + 1);
            let (z, ps) = points[n as int];
            &&& before is Some ==> next == before
            &&& before is None && ps@.len() != row.len() ==> next == Some(FriError::PointCount)
            &&& before is None && ps@.len() == row.len() && ered((z@.0 - x, z@.1)) == (0int, 0int)
                ==> next == Some(FriError::PointMatchesQuery)
            &&& before is None && ps@.len() == row.len() && ered((z@.0 - x, z@.1)) != (0int, 0int)
                ==> next is None
        }),
{
}

/// What the fold of a query is refused for: no opening, a first opening of another height than the
/// domain's, a round, another height at the end, or an opening that no round took in.
pub proof fn law_fold_refused(
    index: int,
    params: FriParams,
    steps: Seq<CommitStep>,
    ros: Seq<(int, (int, int))>,
    log_global: int,
    log_final: int,
)
    ensures
        ({
            let fail = query_fold(index, params, steps, ros, log_global, log_final).fail;
            let start = Fold { index, eval: ros[0].1, log_height: log_global, taken: 1, fail: None };
            let end = fold_run(start, params, steps, ros, steps.len());
            let begun = ros.len() > 0 && ros[0].0 == log_global;
            let done = begun && end.fail is None;
            &&& ros.len() == 0 ==> fail == Some(FriError::MissingInitial)
            &&& ros.len() > 0 && ros[0].0 != log_global ==> fail == Some(
                FriError::InitialHeight { got: ros[0].0 as usize, expected: log_global as usize },
            )
            &&& begun && end.fail is Some ==> fail == end.fail
            &&& done && end.log_height != log_final ==> fail == Some(
                FriError::FinalHeight {
                    got: end.log_height as usize,
                    expected: log_final as usize,
                },
            )
            &&& done && end.log_height == log_final && end.taken < ros.len() ==> fail == Some(
                FriError::UnconsumedOpenings,
            )
            &&& done && end.log_height == log_final && end.taken >= ros.len() ==> fail is None
        }),
{
}

/// What a fold round is refused for: an arity that is zero, or more than is allowed or left; another
/// number of siblings than the arity has; or a path that does not lead to the cap. What was refused stays
/// refused.
pub proof fn law_round_refused(
    f: Fold,
    params: FriParams,
    round: int,
    step: CommitStep,
    ros: Seq<(int, (int, int))>,
)
    ensures
        ({
            let fail = fold_step(f, params, round, step, ros).fail;
            let la = step.opening.log_arity as int;
            let fits = 1 <= la && la <= params.max_log_arity && la <= f.log_height;
            let most = if params.max_log_arity < f.log_height {
                params.max_log_arity as int
            } else {
                f.log_height
            };
            let full = step.opening.sibling_values@.len() + 1 == pow2(la as nat);
            &&& f.fail is Some ==> fail == f.fail
            &&& f.fail is None && !fits ==> fail == Some(
                FriError::InvalidLogArity {
                    round: round as usize,
                    log_arity: la as usize,
                    max_log_arity: most as usize,
                },
            )
            &&& f.fail is None && fits && !full ==> fail == Some(
                FriError::SiblingCount { round: round as usize },
            )
            &&& f.fail is None && fits && full ==> fail is None || fail == Some(
                FriError::CommitMerkle { round: round as usize },
            )
        }),
{
}

/// What a proof of the constant column is refused for: its low-degree test, or else its constraints.
pub proof fn law_const_refused(o: OpeningRounds, params: FriParams, p: PlainProof, pvs: Seq<int>)
    ensures
        ({
            let d = observed_coms(
                after_ext(before_zeta(p, p.degree_bits as int, pvs, false)),
                o.coms@,
                o.coms@.len(),
            );
            let fri = fri_run(d, params, p.fri, o.coms@).fail;
            let db = p.degree_bits as int;
            let out = const_outcome(o, params, p, pvs);
            &&& fri is Some ==> out == Err::<(), ProofError>(ProofError::Fri(fri->0))
            &&& fri is None && !const_holds(p, pvs, o.alpha@, o.zeta@, db, db, 0) ==> out == Err::<
                (),
                ProofError,
            >(ProofError::OodEvaluationMismatch)
        }),
{
}

/// What a hiding proof is refused for: a degree too small, one too large, its point or missing values,
/// its openings, or else its constraints.
pub proof fn law_hiding_refused(p: PlainProof, pvs: Seq<int>, max_log_degree: int, opened: bool)
    requires
        max_log_degree >= 0,
    ensures
        ({
            let out = hiding_outcome(p, pvs, max_log_degree, opened);
            let db = p.degree_bits;
            let early = rounds_fail(p, db - 1, pvs, true, true);
            let within = 1 <= db <= max_log_degree;
            let holds = const_holds(
                p,
                pvs,
                sampled_ext(before_alpha(p, db - 1, pvs)),
                sampled_ext(before_zeta(p, db - 1, pvs, true)),
                db - 1,
                db + 1,
                2,
            );
            &&& db == 0 ==> out == Err::<(), _>(
                ProofError::DegreeBitsTooSmall { minimum: 1, got: db },
            )
            &&& db > 0 && db > max_log_degree ==> out == Err::<(), _>(
                ProofError::DegreeBitsTooLarge { maximum: max_log_degree as usize, got: db },
            )
            &&& within && early is Some ==> out == Err::<(), _>(early->0)
            &&& within && early is None && !opened ==> out == Err::<(), _>(
                ProofError::OpeningsRejected,
            )
            &&& within && early is None && opened && !holds ==> out == Err::<(), _>(
                ProofError::OodEvaluationMismatch,
            )
        }),
{
}

/// What a proof is refused for before its openings: a point in the trace domain, random values that are
/// missing, or values at the next point that are.
pub proof fn law_rounds_refused(p: PlainProof, base: int, pvs: Seq<int>, next: bool, hiding: bool)
    ensures
        ({
            let fail = rounds_fail(p, base, pvs, next, hiding);
            let inside = epow2k(sampled_ext(before_zeta(p, base, pvs, hiding)), base as nat) == (
                1int,
                0int,
            );
            let bare = hiding && p.random_cap is Some && p.random is None;
            &&& inside ==> fail == Some(ProofError::ZetaInTraceDomain)
            &&& !inside && bare ==> fail == Some(ProofError::MissingRandomValues)
            &&& !inside && !bare && next && p.trace_next is None ==> fail == Some(
                ProofError::MissingTraceNext,
            )
        }),
{
}

} // verus!
