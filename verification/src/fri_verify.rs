//! The low-degree test of a proof: the challenges of the commit phase, and every query.
use crate::challenger::{
    after_ext, after_sample, observed, observed_all, observed_exts, sampled, sampled_ext, views,
    Challenger, Duplex,
};
use crate::cols::is_pow2;
use crate::field::{eeq, ered, lemma_ered, Challenge, P};
use crate::fri_input::{
    coms_ok, highest, input_fail, listed, log_height_of, open_input, OpenedBatch, OpenedMatrix,
};
use crate::fri_laws::{behind, law_query_index};
use crate::fri_query::{query_fold, steps_ok, verify_query, CommitStep, FriError, FriParams};
use crate::native_fri::{eval_final_poly, final_query_point, poly_at, query_point};
use crate::monolith::general::two_to;
use crate::plain_proof::{
    arities_z, cap_felts, cap_z, log_arities, log_global_height, sum_z, FriProof, QueryProof,
};
use vstd::arithmetic::power2::{lemma_pow2_pos, lemma_pow2_strictly_increases, pow2};
use vstd::prelude::*;

verus! {

/// Whether a witness passes a proof of work: the sample behind it ends in `bits` zeros.
pub open spec fn witness_ok(d: Duplex, bits: int, witness: int) -> bool {
    bits == 0 || sampled(observed(d, witness)) % (pow2(bits as nat) as int) == 0
}

/// The sponge behind a proof of work; one of zero bits takes nothing in.
pub open spec fn after_witness(d: Duplex, bits: int, witness: int) -> Duplex {
    if bits == 0 {
        d
    } else {
        after_sample(observed(d, witness))
    }
}

/// Checks the witness of a proof of work.
pub fn check_witness(c: &mut Challenger, bits: usize, witness: u64) -> (r: bool)
    requires
        pow2(bits as nat) <= P,
    ensures
        r == witness_ok(old(c)@, bits as int, witness as int),
        final(c)@ == after_witness(old(c)@, bits as int, witness as int),
{
    if bits == 0 {
        return true;
    }
    c.observe(witness);
    let v: u64 = c.sample();
    let m: u64 = two_to_u64(bits);
    proof {
        lemma_pow2_pos(bits as nat);
    }
    v % m == 0
}

/// `2^k`.
fn two_to_u64(k: usize) -> (r: u64)
    requires
        pow2(k as nat) <= P,
    ensures
        r == pow2(k as nat),
{
    let mut r: u64 = 1;
    proof {
        vstd::arithmetic::power2::lemma2_to64();
    }
    for i in 0..k
        invariant
            pow2(k as nat) <= P,
            r == pow2(i as nat),
    {
        proof {
            vstd::arithmetic::power2::lemma_pow2_unfold((i + 1) as nat);
            if i + 1 < k {
                lemma_pow2_strictly_increases((i + 1) as nat, k as nat);
            }
        }
        r = 2 * r;
    }
    r
}

/// The challenges of the first `n` commit rounds, the sponge behind them, and what they fail on.
pub struct Rounds {
    pub sponge: Duplex,
    pub betas: Seq<(int, int)>,
    pub fail: Option<FriError>,
}

pub open spec fn rounds_run(d: Duplex, params: FriParams, f: FriProof, n: nat) -> Rounds
    decreases n,
{
    if n == 0 {
        Rounds { sponge: d, betas: seq![], fail: None }
    } else {
        let before = rounds_run(d, params, f, (n - 1) as nat);
        let s = observed_all(before.sponge, cap_z(f.commit_phase_commits@[n - 1]@));
        let bits = params.commit_pow_bits as int;
        let w = f.commit_pow_witnesses@[n - 1] as int;
        let t = after_witness(s, bits, w);
        if before.fail is Some {
            before
        } else if !witness_ok(s, bits, w) {
            Rounds { sponge: t, fail: Some(FriError::CommitPow), ..before }
        } else {
            Rounds { sponge: after_ext(t), betas: before.betas.push(sampled_ext(t)), fail: None }
        }
    }
}

/// The number of commit rounds that have both a commitment and a witness.
pub open spec fn round_count(f: FriProof) -> nat {
    if f.commit_phase_commits@.len() < f.commit_pow_witnesses@.len() {
        f.commit_phase_commits@.len()
    } else {
        f.commit_pow_witnesses@.len()
    }
}

/// The largest height of the matrices of the first `n` batches.
pub open spec fn tallest(coms: Seq<OpenedBatch>, log_blowup: int, n: nat) -> int
    decreases n,
{
    if n == 0 {
        0
    } else {
        let before = tallest(coms, log_blowup, (n - 1) as nat);
        let h = highest(coms[n - 1].mats@, log_blowup, coms[n - 1].mats@.len());
        if h > before {
            h
        } else {
            before
        }
    }
}

/// Some batch has a matrix.
pub open spec fn has_matrix(coms: Seq<OpenedBatch>) -> bool {
    exists|i: int| 0 <= i < coms.len() && (#[trigger] coms[i]).mats.len() > 0
}

proof fn lemma_highest(mats: Seq<OpenedMatrix>, b: int, n: nat, j: int)
    requires
        0 <= j < n <= mats.len(),
        b >= 0,
    ensures
        log_height_of(mats[j], b) <= highest(mats, b, n),
    decreases n,
{
    if j < n - 1 {
        lemma_highest(mats, b, (n - 1) as nat, j);
    }
}

proof fn lemma_tallest(coms: Seq<OpenedBatch>, b: int, n: nat, i: int)
    requires
        0 <= i < n <= coms.len(),
    ensures
        highest(coms[i].mats@, b, coms[i].mats@.len()) <= tallest(coms, b, n),
    decreases n,
{
    if i < n - 1 {
        lemma_tallest(coms, b, (n - 1) as nat, i);
    }
}

proof fn lemma_tallest_grows(coms: Seq<OpenedBatch>, b: int, k: nat, n: nat)
    requires
        k <= n,
    ensures
        tallest(coms, b, k) <= tallest(coms, b, n),
    decreases n,
{
    if k < n {
        lemma_tallest_grows(coms, b, k, (n - 1) as nat);
    }
}

/// The largest height of the matrices.
fn tallest_of(coms: &Vec<OpenedBatch>, log_blowup: usize) -> (r: usize)
    requires
        tallest(coms@, log_blowup as int, coms@.len()) <= usize::MAX,
    ensures
        r == tallest(coms@, log_blowup as int, coms@.len()),
{
    let n: usize = coms.len();
    let mut top: usize = 0;
    for i in 0..n
        invariant
            n == coms.len(),
            tallest(coms@, log_blowup as int, coms@.len()) <= usize::MAX,
            top == tallest(coms@, log_blowup as int, i as nat),
    {
        let m: usize = coms[i].mats.len();
        let ghost mats = coms@[i as int].mats@;
        let mut h: usize = 0;
        proof {
            lemma_tallest(coms@, log_blowup as int, n as nat, i as int);
        }
        for j in 0..m
            invariant
                mats == coms@[i as int].mats@,
                i < coms.len(),
                m == mats.len(),
                highest(mats, log_blowup as int, m as nat) <= usize::MAX,
                h == highest(mats, log_blowup as int, j as nat),
        {
            proof {
                lemma_highest(mats, log_blowup as int, m as nat, j as int);
            }
            let k: usize = coms[i].mats[j].log_size + log_blowup;
            if j == 0 || k > h {
                h = k;
            }
        }
        if h > top {
            top = h;
        }
    }
    top
}

/// The steps of a query.
pub open spec fn query_steps<'a>(betas: Seq<(int, int)>, f: FriProof, q: QueryProof) -> Seq<
    CommitStep<'a>,
> {
    Seq::new(
        betas.len(),
        |i: int|
            CommitStep {
                beta: Challenge { c0: betas[i].0 as u64, c1: betas[i].1 as u64 },
                commit: &f.commit_phase_commits@[i],
                opening: &q.commit_phase_openings@[i],
            },
    )
}

/// What a query fails on.
pub open spec fn query_fail(
    params: FriParams,
    f: FriProof,
    coms: Seq<OpenedBatch>,
    q: QueryProof,
    index: int,
    alpha: (int, int),
    betas: Seq<(int, int)>,
    log_global: int,
) -> Option<FriError> {
    let log_final = params.log_blowup + params.log_final_poly_len;
    let ros = listed(
        q.input_proof@,
        coms,
        params.log_blowup as int,
        index,
        log_global,
        alpha,
        (log_global + 1) as nat,
    );
    let end = query_fold(index, params, query_steps(betas, f, q), ros, log_global, log_final);
    let x = (query_point(end.index, log_global as nat), 0int);
    match input_fail(q.input_proof@, coms, params, index, log_global, alpha) {
        Some(e) => Some(e),
        None => match end.fail {
            Some(e) => Some(e),
            None => if ered(poly_at(views(f.final_poly@), x)) != ered(end.eval) {
                Some(FriError::FinalPolyMismatch)
            } else {
                None
            },
        },
    }
}

/// The sponge and the failure behind the first `n` queries.
pub struct Checked {
    pub sponge: Duplex,
    pub fail: Option<FriError>,
}

pub open spec fn queries_run(
    d: Duplex,
    params: FriParams,
    f: FriProof,
    coms: Seq<OpenedBatch>,
    alpha: (int, int),
    betas: Seq<(int, int)>,
    log_global: int,
    n: nat,
) -> Checked
    decreases n,
{
    if n == 0 {
        Checked { sponge: d, fail: None }
    } else {
        let before = queries_run(d, params, f, coms, alpha, betas, log_global, (n - 1) as nat);
        if before.fail is Some {
            before
        } else {
            let index = sampled(before.sponge) % (pow2(log_global as nat) as int);
            Checked {
                sponge: after_sample(before.sponge),
                fail: query_fail(
                    params,
                    f,
                    coms,
                    f.query_proofs@[n - 1],
                    index,
                    alpha,
                    betas,
                    log_global,
                ),
            }
        }
    }
}

/// The largest height that the proof's arities lead to.
pub open spec fn proof_height(params: FriParams, f: FriProof) -> int {
    sum_z(arities_z(f), arities_z(f).len()) + params.log_blowup + params.log_final_poly_len
}

/// The low-degree test.
pub open spec fn fri_run(
    d: Duplex,
    params: FriParams,
    f: FriProof,
    coms: Seq<OpenedBatch>,
) -> Checked {
    let top = tallest(coms, params.log_blowup as int, coms.len());
    let alpha = sampled_ext(d);
    let d1 = after_ext(d);
    let n = f.commit_phase_commits@.len();
    let lg = proof_height(params, f);
    let rounds = rounds_run(d1, params, f, round_count(f));
    let d2 = observed_exts(rounds.sponge, views(f.final_poly@));
    let d3 = observed_all(d2, arities_z(f));
    let bits = params.query_pow_bits as int;
    let w = f.query_pow_witness as int;
    let d4 = after_witness(d3, bits, w);
    if params.num_queries == 0 {
        Checked { sponge: d, fail: Some(FriError::ZeroQueries) }
    } else if exists|q: int|
        0 <= q < f.query_proofs.len() && (#[trigger] f.query_proofs@[q]).commit_phase_openings.len()
            != n {
        Checked { sponge: d1, fail: Some(FriError::OpeningCount) }
    } else if lg != top {
        Checked {
            sponge: d1,
            fail: Some(FriError::GlobalHeight { got: lg as usize, expected: top as usize }),
        }
    } else if rounds.fail is Some {
        Checked { sponge: rounds.sponge, fail: rounds.fail }
    } else if f.final_poly.len() != pow2(params.log_final_poly_len as nat) {
        Checked { sponge: rounds.sponge, fail: Some(FriError::FinalPolyLength) }
    } else if f.query_proofs.len() != params.num_queries {
        Checked { sponge: d2, fail: Some(FriError::QueryCount) }
    } else if !witness_ok(d3, bits, w) {
        Checked { sponge: d4, fail: Some(FriError::QueryPow) }
    } else {
        queries_run(d4, params, f, coms, alpha, rounds.betas, lg, f.query_proofs@.len())
    }
}

/// Every commitment of the proof is a Merkle cap.
pub open spec fn caps_ok(f: FriProof) -> bool {
    forall|i: int|
        0 <= i < f.commit_phase_commits@.len() ==> is_pow2(
            (#[trigger] f.commit_phase_commits@[i]).len() as int,
        )
}

/// The challenges of the commit rounds.
fn commit_betas(c: &mut Challenger, params: &FriParams, f: &FriProof) -> (r: Result<
    Vec<Challenge>,
    FriError,
>)
    requires
        pow2(params.commit_pow_bits as nat) <= P,
    ensures
        ({
            let run = rounds_run(old(c)@, *params, *f, round_count(*f));
            &&& final(c)@ == run.sponge
            &&& match r {
                Ok(betas) => run.fail is None && views(betas@) == run.betas,
                Err(e) => run.fail == Some(e),
            }
        }),
{
    let a: usize = f.commit_phase_commits.len();
    let b: usize = f.commit_pow_witnesses.len();
    let n: usize = if a < b {
        a
    } else {
        b
    };
    let ghost d = c@;
    let mut betas: Vec<Challenge> = Vec::new();
    assert(views(betas@) =~= Seq::<(int, int)>::empty());
    for i in 0..n
        invariant
            n == round_count(*f),
            pow2(params.commit_pow_bits as nat) <= P,
            d == old(c)@,
            rounds_run(d, *params, *f, i as nat) == (Rounds {
                sponge: c@,
                betas: views(betas@),
                fail: None,
            }),
    {
        let cap: Vec<u64> = cap_felts(&f.commit_phase_commits[i]);
        c.observe_all(cap.as_slice());
        if !check_witness(c, params.commit_pow_bits, f.commit_pow_witnesses[i]) {
            proof {
                lemma_rounds_failed(d, *params, *f, (i + 1) as nat, n as nat);
            }
            return Err(FriError::CommitPow);
        }
        let beta: Challenge = c.sample_ext();
        let ghost before = views(betas@);
        betas.push(beta);
        assert(views(betas@) =~= before.push(beta@));
    }
    Ok(betas)
}

proof fn lemma_rounds_failed(d: Duplex, params: FriParams, f: FriProof, k: nat, n: nat)
    requires
        k <= n,
        rounds_run(d, params, f, k).fail is Some,
    ensures
        rounds_run(d, params, f, n) == rounds_run(d, params, f, k),
    decreases n - k,
{
    if k < n {
        lemma_rounds_failed(d, params, f, k, (n - 1) as nat);
    }
}

proof fn lemma_queries_failed(
    d: Duplex,
    params: FriParams,
    f: FriProof,
    coms: Seq<OpenedBatch>,
    alpha: (int, int),
    betas: Seq<(int, int)>,
    log_global: int,
    k: nat,
    n: nat,
)
    requires
        k <= n,
        queries_run(d, params, f, coms, alpha, betas, log_global, k).fail is Some,
    ensures
        queries_run(d, params, f, coms, alpha, betas, log_global, n) == queries_run(
            d,
            params,
            f,
            coms,
            alpha,
            betas,
            log_global,
            k,
        ),
    decreases n - k,
{
    if k < n {
        lemma_queries_failed(d, params, f, coms, alpha, betas, log_global, k, (n - 1) as nat);
    }
}

/// Checks one query.
fn check_query(
    params: &FriParams,
    f: &FriProof,
    coms: &Vec<OpenedBatch>,
    q: &QueryProof,
    index: usize,
    alpha: Challenge,
    betas: &Vec<Challenge>,
    log_global: usize,
) -> (r: Result<(), FriError>)
    requires
        log_global <= 32,
        2 * pow2(log_global as nat) <= usize::MAX,
        coms_ok(coms@, params.log_blowup as int, log_global as int),
        caps_ok(*f),
        betas.len() <= f.commit_phase_commits.len(),
        betas.len() <= q.commit_phase_openings.len(),
        params.log_blowup + params.log_final_poly_len <= usize::MAX,
    ensures
        ({
            let fail = query_fail(
                *params,
                *f,
                coms@,
                *q,
                index as int,
                alpha@,
                views(betas@),
                log_global as int,
            );
            match r {
                Ok(()) => fail is None,
                Err(e) => fail == Some(e),
            }
        }),
{
    let log_final: usize = params.log_blowup + params.log_final_poly_len;
    let ros: Vec<(usize, Challenge)> = match open_input(
        params,
        log_global,
        index,
        q.input_proof.as_slice(),
        alpha,
        coms,
    ) {
        Err(e) => {
            return Err(e);
        },
        Ok(ros) => ros,
    };
    let n: usize = betas.len();
    let mut steps: Vec<CommitStep> = Vec::new();
    for i in 0..n
        invariant
            n == betas.len(),
            n <= f.commit_phase_commits.len(),
            n <= q.commit_phase_openings.len(),
            caps_ok(*f),
            steps.len() == i,
            steps_ok(steps@),
            forall|j: int|
                0 <= j < i ==> #[trigger] steps@[j] == query_steps(views(betas@), *f, *q)[j],
    {
        let beta: Challenge = betas[i];
        assert(is_pow2(f.commit_phase_commits@[i as int].len() as int));
        steps.push(
            CommitStep {
                beta,
                commit: &f.commit_phase_commits[i],
                opening: &q.commit_phase_openings[i],
            },
        );
    }
    assert(steps@ =~= query_steps(views(betas@), *f, *q));
    let mut at: usize = index;
    match verify_query(params, &mut at, &steps, &ros, log_global, log_final) {
        Err(e) => Err(e),
        Ok(value) => {
            let x: Challenge = final_query_point(at, log_global);
            if eeq(eval_final_poly(f.final_poly.as_slice(), x), value) {
                proof {
                    lemma_ered(poly_at(views(f.final_poly@), x@));
                }
                Ok(())
            } else {
                proof {
                    lemma_ered(poly_at(views(f.final_poly@), x@));
                }
                Err(FriError::FinalPolyMismatch)
            }
        },
    }
}

/// Whether every query opens every commit round.
fn openings_match(f: &FriProof) -> (r: bool)
    ensures
        r == !(exists|q: int|
            0 <= q < f.query_proofs.len() && (
            #[trigger] f.query_proofs@[q]).commit_phase_openings.len()
                != f.commit_phase_commits@.len()),
{
    let n: usize = f.query_proofs.len();
    for q in 0..n
        invariant
            n == f.query_proofs.len(),
            forall|k: int|
                0 <= k < q ==> (#[trigger] f.query_proofs@[k]).commit_phase_openings.len()
                    == f.commit_phase_commits@.len(),
    {
        if f.query_proofs[q].commit_phase_openings.len() != f.commit_phase_commits.len() {
            assert(f.query_proofs@[q as int].commit_phase_openings.len()
                != f.commit_phase_commits@.len());
            return false;
        }
    }
    true
}

/// Runs the low-degree test of a proof against the committed matrices.
pub fn verify_fri_native(
    params: &FriParams,
    f: &FriProof,
    challenger: &mut Challenger,
    coms: &Vec<OpenedBatch>,
) -> (r: Result<(), FriError>)
    requires
        has_matrix(coms@),
        tallest(coms@, params.log_blowup as int, coms@.len()) <= 32,
        2 * pow2(tallest(coms@, params.log_blowup as int, coms@.len()) as nat) <= usize::MAX,
        forall|i: int| 0 <= i < coms.len() ==> is_pow2((#[trigger] coms@[i]).cap.len() as int),
        caps_ok(*f),
        255 * arities_z(*f).len() + params.log_blowup + params.log_final_poly_len <= usize::MAX,
        pow2(params.log_final_poly_len as nat) <= usize::MAX,
        pow2(params.commit_pow_bits as nat) <= P,
        pow2(params.query_pow_bits as nat) <= P,
    ensures
        ({
            let run = fri_run(old(challenger)@, *params, *f, coms@);
            &&& final(challenger)@ == run.sponge
            &&& match r {
                Ok(()) => run.fail is None,
                Err(e) => run.fail == Some(e),
            }
        }),
        ({
            let top = tallest(coms@, params.log_blowup as int, coms@.len());
            let rounds = rounds_run(after_ext(old(challenger)@), *params, *f, round_count(*f));
            let d = after_witness(
                observed_all(observed_exts(rounds.sponge, views(f.final_poly@)), arities_z(*f)),
                params.query_pow_bits as int,
                f.query_pow_witness as int,
            );
            r is Ok ==> forall|q: nat|
                q < f.query_proofs.len() ==> query_fail(
                    *params,
                    *f,
                    coms@,
                    f.query_proofs@[q as int],
                    sampled(#[trigger] behind(d, q)) % (pow2(top as nat) as int),
                    sampled_ext(old(challenger)@),
                    rounds.betas,
                    top,
                ) is None
        }),
{
    if params.num_queries == 0 {
        return Err(FriError::ZeroQueries);
    }
    let alpha: Challenge = challenger.sample_ext();
    if !openings_match(f) {
        return Err(FriError::OpeningCount);
    }
    let lg: usize = log_global_height(f, params.log_blowup, params.log_final_poly_len);
    let top: usize = tallest_of(coms, params.log_blowup);
    if lg != top {
        return Err(FriError::GlobalHeight { got: lg, expected: top });
    }
    proof {
        let b = params.log_blowup as int;
        assert forall|i: int, j: int|
            #![trigger coms@[i].mats@[j]]
            0 <= i < coms.len() && 0 <= j < coms@[i].mats.len() implies log_height_of(
            coms@[i].mats@[j],
            b,
        ) <= lg by {
            lemma_highest(coms@[i].mats@, b, coms@[i].mats@.len(), j);
            lemma_tallest(coms@, b, coms@.len(), i);
        }
    }
    let betas: Vec<Challenge> = match commit_betas(challenger, params, f) {
        Err(e) => {
            return Err(e);
        },
        Ok(betas) => betas,
    };
    if f.final_poly.len() != two_to(params.log_final_poly_len) {
        return Err(FriError::FinalPolyLength);
    }
    challenger.observe_exts(f.final_poly.as_slice());
    if f.query_proofs.len() != params.num_queries {
        return Err(FriError::QueryCount);
    }
    let arities: Vec<u64> = log_arities(f);
    challenger.observe_all(arities.as_slice());
    if !check_witness(challenger, params.query_pow_bits, f.query_pow_witness) {
        return Err(FriError::QueryPow);
    }
    let ghost d = challenger@;
    let n: usize = f.query_proofs.len();
    proof {
        lemma_betas_len(after_ext(old(challenger)@), *params, *f, round_count(*f));
        assert(views(betas@).len() == betas.len());
    }
    let size: usize = two_to(lg);
    proof {
        lemma_pow2_pos(lg as nat);
    }
    for q in 0..n
        invariant
            n == f.query_proofs.len(),
            lg <= 32,
            size == pow2(lg as nat),
            size > 0,
            2 * pow2(lg as nat) <= usize::MAX,
            coms_ok(coms@, params.log_blowup as int, lg as int),
            caps_ok(*f),
            betas.len() <= f.commit_phase_commits.len(),
            forall|k: int|
                0 <= k < n ==> (#[trigger] f.query_proofs@[k]).commit_phase_openings.len()
                    == f.commit_phase_commits@.len(),
            params.log_blowup + params.log_final_poly_len <= usize::MAX,
            queries_run(
                d,
                *params,
                *f,
                coms@,
                alpha@,
                views(betas@),
                lg as int,
                q as nat,
            ) == (Checked { sponge: challenger@, fail: None }),
            fri_run(old(challenger)@, *params, *f, coms@) == queries_run(
                d,
                *params,
                *f,
                coms@,
                alpha@,
                views(betas@),
                lg as int,
                n as nat,
            ),
    {
        let v: u64 = challenger.sample();
        let index: usize = (v % (size as u64)) as usize;
        assert(f.query_proofs@[q as int].commit_phase_openings.len()
            == f.commit_phase_commits@.len());
        match check_query(params, f, coms, &f.query_proofs[q], index, alpha, &betas, lg) {
            Err(e) => {
                proof {
                    lemma_queries_failed(
                        d,
                        *params,
                        *f,
                        coms@,
                        alpha@,
                        views(betas@),
                        lg as int,
                        (q + 1) as nat,
                        n as nat,
                    );
                }
                return Err(e);
            },
            Ok(()) => {},
        }
    }
    proof {
        assert forall|q: nat| q < n implies query_fail(
            *params,
            *f,
            coms@,
            f.query_proofs@[q as int],
            sampled(#[trigger] behind(d, q)) % (pow2(lg as nat) as int),
            alpha@,
            views(betas@),
            lg as int,
        ) is None by {
            law_query_index(
                d,
                *params,
                *f,
                coms@,
                alpha@,
                views(betas@),
                lg as int,
                n as nat,
                q,
            );
        }
    }
    Ok(())
}

proof fn lemma_betas_len(d: Duplex, params: FriParams, f: FriProof, n: nat)
    ensures
        rounds_run(d, params, f, n).betas.len() <= n,
    decreases n,
{
    if n > 0 {
        lemma_betas_len(d, params, f, (n - 1) as nat);
    }
}

} // verus!
