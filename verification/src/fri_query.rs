//! The fold of one query along the commit phase.
use crate::bits::{shift_index, shr_z};
use crate::challenger::views;
use crate::cols::is_pow2;
use crate::field::{eadd, ecanonical, emul, ered, ezero, lemma_ered, zadd, zmul, Challenge};
use crate::merkle::Digest;
use crate::mmcs::{extension_verify_row, group_accepts};
use crate::monolith::general::two_to;
use crate::native_fri::{fold_group, folded};
use crate::plain_proof::CommitOpening;
use vstd::arithmetic::power2::{lemma_pow2_pos, lemma_pow2_strictly_increases, pow2};
use vstd::prelude::*;

verus! {

/// The parameters of the low-degree test.
#[derive(Clone, Copy, Debug)]
pub struct FriParams {
    pub log_blowup: usize,
    pub log_final_poly_len: usize,
    pub max_log_arity: usize,
    pub num_queries: usize,
    pub commit_pow_bits: usize,
    pub query_pow_bits: usize,
    pub cap_height: usize,
}

/// Why a low-degree test is refused.
#[derive(Clone, Copy, Debug, PartialEq, Eq, Structural)]
pub enum FriError {
    MissingInitial,
    InitialHeight { got: usize, expected: usize },
    InvalidLogArity { round: usize, log_arity: usize, max_log_arity: usize },
    SiblingCount { round: usize },
    CommitMerkle { round: usize },
    FinalHeight { got: usize, expected: usize },
    UnconsumedOpenings,
    BatchCount,
    OpenedCount,
    NoOpeningPoints,
    InputMerkle,
    PointCount,
    PointMatchesQuery,
    NonzeroBlowup,
    ZeroQueries,
    OpeningCount,
    GlobalHeight { got: usize, expected: usize },
    CommitPow,
    FinalPolyLength,
    QueryCount,
    QueryPow,
    FinalPolyMismatch,
}

/// The parameters that proofs are checked with, for a fold arity and a number of queries.
pub fn build_params(max_log_arity: usize, num_queries: usize) -> (r: FriParams)
    ensures
        r == (FriParams {
            log_blowup: 4,
            log_final_poly_len: 0,
            max_log_arity,
            num_queries,
            commit_pow_bits: 0,
            query_pow_bits: 16,
            cap_height: 6,
        }),
{
    FriParams {
        log_blowup: 4,
        log_final_poly_len: 0,
        max_log_arity,
        num_queries,
        commit_pow_bits: 0,
        query_pow_bits: 16,
        cap_height: 6,
    }
}

/// One round of the commit phase of a query: the challenge, the commitment and the opening.
pub struct CommitStep<'a> {
    pub beta: Challenge,
    pub commit: &'a Vec<Digest>,
    pub opening: &'a CommitOpening,
}

/// Where the fold of a query stands: the index, the running evaluation, the height, how many reduced
/// openings went in, and what it failed on.
pub struct Fold {
    pub index: int,
    pub eval: (int, int),
    pub log_height: int,
    pub taken: int,
    pub fail: Option<FriError>,
}

/// A group: the running evaluation at its slot, the siblings around it in order.
pub open spec fn group_z(eval: (int, int), siblings: Seq<(int, int)>, slot: int) -> Seq<(int, int)> {
    Seq::new(
        siblings.len() + 1,
        |j: int|
            if j < slot {
                siblings[j]
            } else if j == slot {
                eval
            } else {
                siblings[j - 1]
            },
    )
}

/// `x` squared `k` times, in the extension.
pub open spec fn epow2k(x: (int, int), k: nat) -> (int, int)
    decreases k,
{
    if k == 0 {
        ered(x)
    } else {
        let y = epow2k(x, (k - 1) as nat);
        ered(zmul(y, y))
    }
}

/// Squares `x` `k` times.
pub fn esquare(x: Challenge, k: usize) -> (r: Challenge)
    ensures
        r@ == epow2k(x@, k as nat),
        ecanonical(r),
{
    let mut r: Challenge = eadd(x, ezero());
    for i in 0..k
        invariant
            r@ == epow2k(x@, i as nat),
            ecanonical(r),
    {
        r = emul(r, r);
    }
    r
}

/// The reduced openings as integers.
pub open spec fn openings_z(ros: Seq<(usize, Challenge)>) -> Seq<(int, (int, int))> {
    Seq::new(ros.len(), |i: int| (ros[i].0 as int, ros[i].1@))
}

pub open spec fn min_z(a: int, b: int) -> int {
    if a < b {
        a
    } else {
        b
    }
}

/// One round of the fold.
pub open spec fn fold_step(
    f: Fold,
    params: FriParams,
    round: int,
    step: CommitStep,
    ros: Seq<(int, (int, int))>,
) -> Fold {
    let la = step.opening.log_arity as int;
    let most = min_z(params.max_log_arity as int, f.log_height);
    let siblings = views(step.opening.sibling_values@);
    if f.fail is Some {
        f
    } else if !(1 <= la <= most) {
        Fold {
            fail: Some(
                FriError::InvalidLogArity {
                    round: round as usize,
                    log_arity: la as usize,
                    max_log_arity: most as usize,
                },
            ),
            ..f
        }
    } else if siblings.len() != pow2(la as nat) - 1 {
        Fold { fail: Some(FriError::SiblingCount { round: round as usize }), ..f }
    } else {
        let group = group_z(f.eval, siblings, f.index % (pow2(la as nat) as int));
        let index = shr_z(f.index, la as nat);
        let low = f.log_height - la;
        if !group_accepts(
            params.cap_height as int,
            step.commit@,
            low as nat,
            index,
            group,
            step.opening.path@,
        ) {
            Fold { index, fail: Some(FriError::CommitMerkle { round: round as usize }), ..f }
        } else {
            let value = folded(index, low as nat, la as nat, step.beta@, group);
            if f.taken < ros.len() && ros[f.taken].0 == low {
                let more = zmul(epow2k(step.beta@, la as nat), ros[f.taken].1);
                Fold {
                    index,
                    eval: ered(zadd(value, more)),
                    log_height: low,
                    taken: f.taken + 1,
                    fail: None,
                }
            } else {
                Fold { index, eval: value, log_height: low, taken: f.taken, fail: None }
            }
        }
    }
}

/// The fold behind the first `n` rounds.
pub open spec fn fold_run(
    start: Fold,
    params: FriParams,
    steps: Seq<CommitStep>,
    ros: Seq<(int, (int, int))>,
    n: nat,
) -> Fold
    decreases n,
{
    if n == 0 {
        start
    } else {
        fold_step(
            fold_run(start, params, steps, ros, (n - 1) as nat),
            params,
            n - 1,
            steps[n - 1],
            ros,
        )
    }
}

/// The fold of a query from its index and its reduced openings, to the end.
pub open spec fn query_fold(
    index: int,
    params: FriParams,
    steps: Seq<CommitStep>,
    ros: Seq<(int, (int, int))>,
    log_global: int,
    log_final: int,
) -> Fold {
    let none = Fold { index, eval: (0, 0), log_height: log_global, taken: 0, fail: None };
    if ros.len() == 0 {
        Fold { fail: Some(FriError::MissingInitial), ..none }
    } else if ros[0].0 != log_global {
        Fold {
            fail: Some(
                FriError::InitialHeight { got: ros[0].0 as usize, expected: log_global as usize },
            ),
            ..none
        }
    } else {
        let end = fold_run(Fold { eval: ros[0].1, taken: 1, ..none }, params, steps, ros, steps.len());
        if end.fail is Some {
            end
        } else if end.log_height != log_final {
            Fold {
                fail: Some(
                    FriError::FinalHeight {
                        got: end.log_height as usize,
                        expected: log_final as usize,
                    },
                ),
                ..end
            }
        } else if end.taken < ros.len() {
            Fold { fail: Some(FriError::UnconsumedOpenings), ..end }
        } else {
            end
        }
    }
}

/// Every commitment of the steps is a Merkle cap.
pub open spec fn steps_ok(steps: Seq<CommitStep>) -> bool {
    forall|i: int| 0 <= i < steps.len() ==> is_pow2((#[trigger] steps[i]).commit.len() as int)
}

proof fn lemma_fold_failed(
    start: Fold,
    params: FriParams,
    steps: Seq<CommitStep>,
    ros: Seq<(int, (int, int))>,
    k: nat,
    n: nat,
)
    requires
        k <= n,
        fold_run(start, params, steps, ros, k).fail is Some,
    ensures
        fold_run(start, params, steps, ros, n) == fold_run(start, params, steps, ros, k),
    decreases n - k,
{
    if k < n {
        lemma_fold_failed(start, params, steps, ros, k, (n - 1) as nat);
    }
}

/// The group that a step opens: the running evaluation among its siblings.
pub fn build_group(eval: Challenge, siblings: &Vec<Challenge>, slot: usize) -> (r: Vec<Challenge>)
    requires
        slot <= siblings.len(),
        siblings.len() < usize::MAX,
    ensures
        views(r@) == group_z(eval@, views(siblings@), slot as int),
        r.len() == siblings.len() + 1,
{
    let n: usize = siblings.len();
    let mut r: Vec<Challenge> = Vec::new();
    for j in 0..n + 1
        invariant
            n == siblings.len(),
            slot <= n < usize::MAX,
            r.len() == j,
            forall|i: int|
                0 <= i < j ==> (#[trigger] r@[i])@ == group_z(
                    eval@,
                    views(siblings@),
                    slot as int,
                )[i],
    {
        if j < slot {
            r.push(siblings[j]);
        } else if j == slot {
            r.push(eval);
        } else {
            r.push(siblings[j - 1]);
        }
    }
    assert(views(r@) =~= group_z(eval@, views(siblings@), slot as int));
    r
}

/// Folds the reduced openings of a query along the commit phase and returns the last evaluation. The
/// index is shifted by the arity of every round.
pub fn verify_query(
    params: &FriParams,
    start_index: &mut usize,
    fold_data: &Vec<CommitStep>,
    reduced_openings: &Vec<(usize, Challenge)>,
    log_global_max_height: usize,
    log_final_height: usize,
) -> (r: Result<Challenge, FriError>)
    requires
        steps_ok(fold_data@),
        log_global_max_height <= 32,
        2 * pow2(log_global_max_height as nat) <= usize::MAX,
    ensures
        ({
            let f = query_fold(
                *old(start_index) as int,
                *params,
                fold_data@,
                openings_z(reduced_openings@),
                log_global_max_height as int,
                log_final_height as int,
            );
            &&& *final(start_index) == f.index
            &&& match r {
                Ok(e) => f.fail is None && e@ == f.eval,
                Err(e) => f.fail == Some(e),
            }
        }),
{
    let ghost ros = openings_z(reduced_openings@);
    let ghost idx0 = *start_index as int;
    let count: usize = reduced_openings.len();
    if count == 0 {
        return Err(FriError::MissingInitial);
    }
    let (first, initial) = reduced_openings[0];
    if first != log_global_max_height {
        return Err(FriError::InitialHeight { got: first, expected: log_global_max_height });
    }
    let ghost start = Fold {
        index: idx0,
        eval: initial@,
        log_height: log_global_max_height as int,
        taken: 1,
        fail: None,
    };
    let mut eval: Challenge = initial;
    let mut log_height: usize = log_global_max_height;
    let mut taken: usize = 1;
    let n: usize = fold_data.len();
    for round in 0..n
        invariant
            n == fold_data.len(),
            count == reduced_openings.len(),
            ros == openings_z(reduced_openings@),
            steps_ok(fold_data@),
            log_height <= log_global_max_height <= 32,
            2 * pow2(log_global_max_height as nat) <= usize::MAX,
            taken <= count,
            idx0 == *old(start_index) as int,
            count > 0,
            ros[0].0 == log_global_max_height,
            start == (Fold {
                index: idx0,
                eval: ros[0].1,
                log_height: log_global_max_height as int,
                taken: 1,
                fail: None,
            }),
            fold_run(start, *params, fold_data@, ros, round as nat) == (Fold {
                index: *start_index as int,
                eval: eval@,
                log_height: log_height as int,
                taken: taken as int,
                fail: None,
            }),
    {
        let step: &CommitStep = &fold_data[round];
        let ghost before = fold_run(start, *params, fold_data@, ros, round as nat);
        let ghost after = fold_run(start, *params, fold_data@, ros, (round + 1) as nat);
        assert(after == fold_step(before, *params, round as int, fold_data@[round as int], ros));
        let la: usize = step.opening.log_arity as usize;
        let most: usize = if params.max_log_arity < log_height {
            params.max_log_arity
        } else {
            log_height
        };
        if la < 1 || la > most {
            proof {
                lemma_fold_failed(start, *params, fold_data@, ros, (round + 1) as nat, n as nat);
            }
            return Err(FriError::InvalidLogArity { round, log_arity: la, max_log_arity: most });
        }
        proof {
            lemma_fits(la as nat, log_global_max_height as nat);
            lemma_pow2_pos(la as nat);
        }
        let arity: usize = two_to(la);
        if step.opening.sibling_values.len() != arity - 1 {
            proof {
                lemma_fold_failed(start, *params, fold_data@, ros, (round + 1) as nat, n as nat);
            }
            return Err(FriError::SiblingCount { round });
        }
        let group: Vec<Challenge> = build_group(
            eval,
            &step.opening.sibling_values,
            *start_index % arity,
        );
        let low: usize = log_height - la;
        proof {
            lemma_fits(low as nat, log_global_max_height as nat);
        }
        *start_index = shift_index(*start_index, la);
        if !extension_verify_row(
            params.cap_height,
            step.commit,
            two_to(low),
            *start_index,
            &group,
            &step.opening.path,
        ) {
            proof {
                lemma_fold_failed(start, *params, fold_data@, ros, (round + 1) as nat, n as nat);
            }
            return Err(FriError::CommitMerkle { round });
        }
        eval = fold_group(*start_index, low, la, step.beta, &group);
        log_height = low;
        if taken < count && reduced_openings[taken].0 == low {
            let more: Challenge = emul(esquare(step.beta, la), reduced_openings[taken].1);
            proof {
                let z = zmul(epow2k(step.beta@, la as nat), ros[taken as int].1);
                lemma_ered(z);
                crate::field::lemma_econg_add(eval@, eval@, ered(z), z);
            }
            eval = eadd(eval, more);
            taken = taken + 1;
        }
    }
    if log_height != log_final_height {
        return Err(FriError::FinalHeight { got: log_height, expected: log_final_height });
    }
    if taken < count {
        return Err(FriError::UnconsumedOpenings);
    }
    Ok(eval)
}

proof fn lemma_fits(a: nat, b: nat)
    requires
        a <= b,
        2 * pow2(b) <= usize::MAX,
    ensures
        2 * pow2(a) <= usize::MAX,
        pow2(a) <= usize::MAX / 2,
{
    if a < b {
        lemma_pow2_strictly_increases(a, b);
    }
}

} // verus!
