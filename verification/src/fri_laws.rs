//! What the low-degree test accepts, said at once of all rounds and all queries.
use crate::challenger::{
    after_ext, after_sample, observed, observed_all, observed_exts, sampled, sampled_ext, views,
    Duplex,
};
use crate::epilogue::{const_holds, const_outcome, const_rounds};
use crate::field::{ered, red, zadd, zmul};
use crate::fri_input::{
    all_terms, batch_fail, batches_fail, deep_point, dims_z, highest, input_fail, log_height_of,
    mats_fail, mats_reach, points_fail, reached, OpenedBatch, OpenedMatrix,
};
use crate::fri_query::{epow2k, fold_run, fold_step, CommitStep, Fold, FriError, FriParams};
use crate::fri_verify::{fri_run, queries_run, query_fail, round_count, rounds_run, tallest};
use crate::mmcs::{opening_accepts, rows_z};
use crate::monolith::query::opening_of;
use crate::native_fri::query_point;
use crate::plain_proof::{arities_z, sum_z, BatchOpening, FriProof, PlainProof};
use crate::replay::{at_alpha_fri, at_beta, at_index, at_pow, script, Script};
use crate::replay_laws::law_replay_agrees;
use crate::stark::{before_zeta, observed_coms, quotient_mats, OpeningRounds};
use vstd::arithmetic::power2::pow2;
use vstd::prelude::*;

verus! {

/// A sponge behind `q` samples.
pub open spec fn behind(d: Duplex, q: nat) -> Duplex
    decreases q,
{
    if q == 0 {
        d
    } else {
        after_sample(behind(d, (q - 1) as nat))
    }
}

/// Where the first `n` queries pass, every one of them passes at the index that its own sample gives: the
/// sample behind those of the queries before it, without the bits beyond the height of the domain.
pub proof fn law_query_index(
    d: Duplex,
    params: FriParams,
    f: FriProof,
    coms: Seq<OpenedBatch>,
    alpha: (int, int),
    betas: Seq<(int, int)>,
    log_global: int,
    n: nat,
    q: nat,
)
    requires
        q < n,
        queries_run(d, params, f, coms, alpha, betas, log_global, n).fail is None,
    ensures
        query_fail(
            params,
            f,
            coms,
            f.query_proofs@[q as int],
            sampled(behind(d, q)) % (pow2(log_global as nat) as int),
            alpha,
            betas,
            log_global,
        ) is None,
        queries_run(d, params, f, coms, alpha, betas, log_global, n).sponge == behind(d, n),
    decreases n,
{
    let m = (n - 1) as nat;
    lemma_query_step(d, params, f, coms, alpha, betas, log_global, n);
    if m > 0 {
        law_query_index(d, params, f, coms, alpha, betas, log_global, m, if q < m {
            q
        } else {
            0
        });
    }
    if q == m {
        reveal(outcome);
    }
}

/// Where every one of the first `n` queries passes at the index that its own sample gives, they pass.
pub proof fn law_queries_pass(
    d: Duplex,
    params: FriParams,
    f: FriProof,
    coms: Seq<OpenedBatch>,
    alpha: (int, int),
    betas: Seq<(int, int)>,
    log_global: int,
    n: nat,
)
    requires
        forall|q: nat|
            q < n ==> query_fail(
                params,
                f,
                coms,
                f.query_proofs@[q as int],
                sampled(#[trigger] behind(d, q)) % (pow2(log_global as nat) as int),
                alpha,
                betas,
                log_global,
            ) is None,
    ensures
        queries_run(d, params, f, coms, alpha, betas, log_global, n).fail is None,
        queries_run(d, params, f, coms, alpha, betas, log_global, n).sponge == behind(d, n),
    decreases n,
{
    if n > 0 {
        let m = (n - 1) as nat;
        law_queries_pass(d, params, f, coms, alpha, betas, log_global, m);
        lemma_query_step(d, params, f, coms, alpha, betas, log_global, n);
        assert(outcome(d, params, f, coms, alpha, betas, log_global, m) is None) by {
            reveal(outcome);
            assert(behind(d, m) == behind(d, m));
        }
    }
}

/// Where a query fails at the index that its own sample gives and none before it did, that is what the
/// queries fail on.
pub proof fn law_first_failure(
    d: Duplex,
    params: FriParams,
    f: FriProof,
    coms: Seq<OpenedBatch>,
    alpha: (int, int),
    betas: Seq<(int, int)>,
    log_global: int,
    n: nat,
    q: nat,
)
    requires
        q < n,
        forall|k: nat|
            k < q ==> query_fail(
                params,
                f,
                coms,
                f.query_proofs@[k as int],
                sampled(#[trigger] behind(d, k)) % (pow2(log_global as nat) as int),
                alpha,
                betas,
                log_global,
            ) is None,
        query_fail(
            params,
            f,
            coms,
            f.query_proofs@[q as int],
            sampled(behind(d, q)) % (pow2(log_global as nat) as int),
            alpha,
            betas,
            log_global,
        ) is Some,
    ensures
        queries_run(d, params, f, coms, alpha, betas, log_global, n).fail == query_fail(
            params,
            f,
            coms,
            f.query_proofs@[q as int],
            sampled(behind(d, q)) % (pow2(log_global as nat) as int),
            alpha,
            betas,
            log_global,
        ),
    decreases n,
{
    if n == q + 1 {
        law_queries_pass(d, params, f, coms, alpha, betas, log_global, q);
        lemma_query_step(d, params, f, coms, alpha, betas, log_global, n);
        reveal(outcome);
    } else {
        law_first_failure(d, params, f, coms, alpha, betas, log_global, (n - 1) as nat, q);
        lemma_query_step(d, params, f, coms, alpha, betas, log_global, n);
    }
}

/// What query `q` fails on at the index of its sample.
#[verifier::opaque]
spec fn outcome(
    d: Duplex,
    params: FriParams,
    f: FriProof,
    coms: Seq<OpenedBatch>,
    alpha: (int, int),
    betas: Seq<(int, int)>,
    log_global: int,
    q: nat,
) -> Option<FriError> {
    query_fail(
        params,
        f,
        coms,
        f.query_proofs@[q as int],
        sampled(behind(d, q)) % (pow2(log_global as nat) as int),
        alpha,
        betas,
        log_global,
    )
}

proof fn lemma_query_step(
    d: Duplex,
    params: FriParams,
    f: FriProof,
    coms: Seq<OpenedBatch>,
    alpha: (int, int),
    betas: Seq<(int, int)>,
    log_global: int,
    n: nat,
)
    requires
        n > 0,
    ensures
        ({
            let before = queries_run(d, params, f, coms, alpha, betas, log_global, (n - 1) as nat);
            let run = queries_run(d, params, f, coms, alpha, betas, log_global, n);
            &&& before.fail is Some ==> run == before
            &&& before.fail is None && before.sponge == behind(d, (n - 1) as nat) ==> run.fail
                == outcome(d, params, f, coms, alpha, betas, log_global, (n - 1) as nat)
                && run.sponge == behind(d, n)
        }),
{
    reveal(outcome);
}

/// The sponges that a replay reads its query indices from follow one another, sample by sample, from the
/// one behind the proof of work.
pub proof fn law_indices_follow(s: Script, q: nat)
    ensures
        at_index(s, q) == behind(after_sample(at_pow(s)), q),
    decreases q,
{
    if q > 0 {
        law_indices_follow(s, (q - 1) as nat);
    }
}

/// The height of the domain is the largest that a committed matrix reaches with the blowup: none reaches
/// further, and one reaches it.
pub proof fn law_tallest(coms: Seq<OpenedBatch>, b: int)
    requires
        b >= 0,
    ensures
        forall|i: int, j: int|
            #![trigger coms[i].mats@[j]]
            0 <= i < coms.len() && 0 <= j < coms[i].mats.len() ==> coms[i].mats@[j].log_size + b
                <= tallest(coms, b, coms.len()),
        (exists|i: int| 0 <= i < coms.len() && (#[trigger] coms[i]).mats.len() > 0) ==> exists|
            i: int,
            j: int,
        |
            #![trigger coms[i].mats@[j]]
            0 <= i < coms.len() && 0 <= j < coms[i].mats.len() && coms[i].mats@[j].log_size + b
                == tallest(coms, b, coms.len()),
{
    lemma_tallest_all(coms, b, coms.len());
    if exists|i: int| 0 <= i < coms.len() && (#[trigger] coms[i]).mats.len() > 0 {
        let i = choose|i: int| 0 <= i < coms.len() && (#[trigger] coms[i]).mats.len() > 0;
        assert(coms[i].mats@[0].log_size + b <= tallest(coms, b, coms.len()));
        lemma_tallest_one(coms, b, coms.len());
    }
}

proof fn lemma_highest_all(mats: Seq<OpenedMatrix>, b: int, n: nat)
    requires
        n <= mats.len(),
        b >= 0,
    ensures
        forall|j: int| 0 <= j < n ==> (#[trigger] mats[j]).log_size + b <= highest(mats, b, n),
        n > 0 ==> exists|j: int|
            0 <= j < n && (#[trigger] mats[j]).log_size + b == highest(mats, b, n),
    decreases n,
{
    if n > 0 {
        lemma_highest_all(mats, b, (n - 1) as nat);
        if highest(mats, b, n) == mats[n - 1].log_size + b {
        } else {
            let j = choose|j: int|
                0 <= j < n - 1 && (#[trigger] mats[j]).log_size + b == highest(
                    mats,
                    b,
                    (n - 1) as nat,
                );
            assert(mats[j].log_size + b == highest(mats, b, n));
        }
    }
}

proof fn lemma_tallest_all(coms: Seq<OpenedBatch>, b: int, n: nat)
    requires
        n <= coms.len(),
        b >= 0,
    ensures
        forall|i: int, j: int|
            #![trigger coms[i].mats@[j]]
            0 <= i < n && 0 <= j < coms[i].mats.len() ==> coms[i].mats@[j].log_size + b <= tallest(
                coms,
                b,
                n,
            ),
    decreases n,
{
    if n > 0 {
        lemma_tallest_all(coms, b, (n - 1) as nat);
        lemma_highest_all(coms[n - 1].mats@, b, coms[n - 1].mats@.len());
    }
}

proof fn lemma_tallest_one(coms: Seq<OpenedBatch>, b: int, n: nat)
    requires
        n <= coms.len(),
        b >= 0,
        exists|i: int| 0 <= i < n && (#[trigger] coms[i]).mats.len() > 0,
    ensures
        exists|i: int, j: int|
            #![trigger coms[i].mats@[j]]
            0 <= i < n && 0 <= j < coms[i].mats.len() && coms[i].mats@[j].log_size + b == tallest(
                coms,
                b,
                n,
            ),
    decreases n,
{
    let m = (n - 1) as nat;
    let mats = coms[n - 1].mats@;
    let before = tallest(coms, b, m);
    let h = highest(mats, b, mats.len());
    lemma_highest_all(mats, b, mats.len());
    if mats.len() > 0 && tallest(coms, b, n) == h {
        let j = choose|j: int|
            0 <= j < mats.len() && (#[trigger] mats[j]).log_size + b == highest(mats, b, mats.len());
        assert(coms[n - 1].mats@[j].log_size + b == tallest(coms, b, n));
    } else if exists|i: int| 0 <= i < m && (#[trigger] coms[i]).mats.len() > 0 {
        lemma_tallest_one(coms, b, m);
    } else {
        lemma_tallest_none(coms, b, m);
        assert(mats.len() > 0);
    }
}

proof fn lemma_tallest_none(coms: Seq<OpenedBatch>, b: int, n: nat)
    requires
        n <= coms.len(),
        forall|i: int| 0 <= i < n ==> (#[trigger] coms[i]).mats.len() == 0,
    ensures
        tallest(coms, b, n) == 0,
    decreases n,
{
    if n > 0 {
        lemma_tallest_none(coms, b, (n - 1) as nat);
    }
}

/// The low-degree test accepts exactly where there are queries to make; every query opens every commit
/// round; the arities fold the domain of the matrices down to the final polynomial; the commit rounds
/// pass; the final polynomial has its length; there are as many queries as asked for; the witness of the
/// proof of work ends in zeros; and the queries pass, over a domain as high as the matrices reach, with
/// the challenges that the sponge gives in turn.
pub proof fn law_fri_accepts(d: Duplex, params: FriParams, f: FriProof, coms: Seq<OpenedBatch>)
    ensures
        ({
            let b = params.log_blowup as int;
            let top = tallest(coms, b, coms.len());
            let rounds = rounds_run(after_ext(d), params, f, round_count(f));
            let fed = observed_all(observed_exts(rounds.sponge, views(f.final_poly@)), arities_z(f));
            let bits = params.query_pow_bits as int;
            let w = f.query_pow_witness as int;
            fri_run(d, params, f, coms).fail is None <==> {
                &&& params.num_queries > 0
                &&& forall|q: int|
                    0 <= q < f.query_proofs.len() ==> (
                    #[trigger] f.query_proofs@[q]).commit_phase_openings.len()
                        == f.commit_phase_commits.len()
                &&& sum_z(arities_z(f), arities_z(f).len()) + b + params.log_final_poly_len == top
                &&& rounds.fail is None
                &&& f.final_poly.len() == pow2(params.log_final_poly_len as nat)
                &&& f.query_proofs.len() == params.num_queries
                &&& bits == 0 || sampled(observed(fed, w)) % (pow2(bits as nat) as int) == 0
                &&& queries_run(
                    if bits == 0 {
                        fed
                    } else {
                        after_sample(observed(fed, w))
                    },
                    params,
                    f,
                    coms,
                    sampled_ext(d),
                    rounds.betas,
                    top,
                    f.query_proofs@.len(),
                ).fail is None
            }
        }),
{
}

/// An accepted proof without hiding passes each of its queries at the index that the replay of its
/// transcript gives, as low in its sample as the domain is high: the trace's height with the blowup. The
/// batching and the fold challenges are those of the replay too.
pub proof fn law_verified_index(
    o: OpeningRounds,
    params: FriParams,
    p: PlainProof,
    pvs: Seq<int>,
    q: nat,
)
    requires
        const_rounds(o, p, pvs),
        const_outcome(o, params, p, pvs) is Ok,
        p.trace_next is Some,
        p.quotient_chunks.len() <= 1,
        params.commit_pow_bits == 0,
        params.query_pow_bits > 0,
        p.fri.commit_pow_witnesses.len() >= p.fri.commit_phase_commits.len(),
        q < p.fri.query_proofs.len(),
    ensures
        ({
            let s = script(p, p.degree_bits as int, pvs);
            let lg = p.degree_bits + params.log_blowup;
            query_fail(
                params,
                p.fri,
                o.coms@,
                p.fri.query_proofs@[q as int],
                sampled(at_index(s, q)) % (pow2(lg as nat) as int),
                sampled_ext(at_alpha_fri(s)),
                Seq::new(
                    p.fri.commit_phase_commits@.len(),
                    |r: int| sampled_ext(at_beta(s, r as nat)),
                ),
                lg,
            ) is None
        }),
{
    let db = p.degree_bits as int;
    let s = script(p, db, pvs);
    let d = observed_coms(after_ext(before_zeta(p, db, pvs, false)), o.coms@, o.coms@.len());
    law_replay_agrees(p, pvs, params, o.coms@, o.zeta, o.zeta_next, 1);
    law_fri_accepts(d, params, p.fri, o.coms@);
    let b = params.log_blowup as int;
    let lg = tallest(o.coms@, b, o.coms@.len());
    let rounds = rounds_run(after_ext(d), params, p.fri, round_count(p.fri));
    let betas = Seq::new(
        p.fri.commit_phase_commits@.len(),
        |r: int| sampled_ext(at_beta(s, r as nat)),
    );
    assert(rounds.betas =~= betas);
    lemma_const_height(o, params, p, pvs);
    law_query_index(
        at_index(s, 0),
        params,
        p.fri,
        o.coms@,
        sampled_ext(d),
        rounds.betas,
        lg,
        p.fri.query_proofs@.len(),
        q,
    );
    lemma_from_index(s, q);
}

/// The same of all queries at once.
pub proof fn law_verified_indices(o: OpeningRounds, params: FriParams, p: PlainProof, pvs: Seq<int>)
    requires
        const_rounds(o, p, pvs),
        const_outcome(o, params, p, pvs) is Ok,
        p.trace_next is Some,
        p.quotient_chunks.len() <= 1,
        params.commit_pow_bits == 0,
        params.query_pow_bits > 0,
        p.fri.commit_pow_witnesses.len() >= p.fri.commit_phase_commits.len(),
    ensures
        ({
            let s = script(p, p.degree_bits as int, pvs);
            let lg = p.degree_bits + params.log_blowup;
            forall|q: nat|
                q < p.fri.query_proofs.len() ==> query_fail(
                    params,
                    p.fri,
                    o.coms@,
                    p.fri.query_proofs@[q as int],
                    sampled(#[trigger] at_index(s, q)) % (pow2(lg as nat) as int),
                    sampled_ext(at_alpha_fri(s)),
                    Seq::new(
                        p.fri.commit_phase_commits@.len(),
                        |r: int| sampled_ext(at_beta(s, r as nat)),
                    ),
                    lg,
                ) is None
        }),
{
    let s = script(p, p.degree_bits as int, pvs);
    let lg = p.degree_bits + params.log_blowup;
    assert forall|q: nat| q < p.fri.query_proofs.len() implies query_fail(
        params,
        p.fri,
        o.coms@,
        p.fri.query_proofs@[q as int],
        sampled(#[trigger] at_index(s, q)) % (pow2(lg as nat) as int),
        sampled_ext(at_alpha_fri(s)),
        Seq::new(
            p.fri.commit_phase_commits@.len(),
            |r: int| sampled_ext(at_beta(s, r as nat)),
        ),
        lg,
    ) is None by {
        law_verified_index(o, params, p, pvs, q);
    }
}

/// The domain of a proof of the constant column is as high as its trace with the blowup.
proof fn lemma_const_height(o: OpeningRounds, params: FriParams, p: PlainProof, pvs: Seq<int>)
    requires
        const_rounds(o, p, pvs),
        p.trace_next is Some,
    ensures
        tallest(o.coms@, params.log_blowup as int, o.coms@.len()) == p.degree_bits
            + params.log_blowup,
{
    let db = p.degree_bits as int;
    let b = params.log_blowup as int;
    let lg = tallest(o.coms@, b, o.coms@.len());
    law_tallest(o.coms@, b);
    assert(o.coms@[0].mats.len() > 0);
    assert(o.coms@[0].mats@[0].log_size == db);
    assert(o.coms@[0].mats@[0].log_size + b <= lg);
    let (i, j) = choose|i: int, j: int|
        #![trigger o.coms@[i].mats@[j]]
        0 <= i < o.coms@.len() && 0 <= j < o.coms@[i].mats.len() && o.coms@[i].mats@[j].log_size + b
            == lg;
    if i == 1 {
        let m = quotient_mats(o.coms@, p, false)[j];
        assert(m == o.coms@[1].mats@[j]);
    }
    assert(o.coms@[i].mats@[j].log_size == db);
}

/// Whatever the height of its trace, a proof of the constant column is accepted where it has the queries,
/// the openings and the final polynomial that are asked for, its arities fold its trace down to that
/// polynomial, its proof of work holds, each of its queries passes at the index that the replay of its
/// transcript gives, and its constraints hold at the out-of-domain point.
pub proof fn law_proof_accepted(o: OpeningRounds, params: FriParams, p: PlainProof, pvs: Seq<int>)
    requires
        const_rounds(o, p, pvs),
        p.trace_next is Some,
        p.quotient_chunks.len() <= 1,
        params.commit_pow_bits == 0,
        params.query_pow_bits > 0,
        p.fri.commit_pow_witnesses.len() >= p.fri.commit_phase_commits.len(),
        0 < params.num_queries == p.fri.query_proofs.len(),
        forall|q: int|
            0 <= q < p.fri.query_proofs.len() ==> (
            #[trigger] p.fri.query_proofs@[q]).commit_phase_openings.len()
                == p.fri.commit_phase_commits.len(),
        sum_z(arities_z(p.fri), arities_z(p.fri).len()) + params.log_final_poly_len == p.degree_bits,
        p.fri.final_poly.len() == pow2(params.log_final_poly_len as nat),
        sampled(at_pow(script(p, p.degree_bits as int, pvs))) % (pow2(
            params.query_pow_bits as nat,
        ) as int) == 0,
        forall|q: nat|
            q < p.fri.query_proofs.len() ==> query_fail(
                params,
                p.fri,
                o.coms@,
                p.fri.query_proofs@[q as int],
                sampled(#[trigger] at_index(script(p, p.degree_bits as int, pvs), q)) % (pow2(
                    (p.degree_bits + params.log_blowup) as nat,
                ) as int),
                sampled_ext(at_alpha_fri(script(p, p.degree_bits as int, pvs))),
                Seq::new(
                    p.fri.commit_phase_commits@.len(),
                    |r: int| sampled_ext(at_beta(script(p, p.degree_bits as int, pvs), r as nat)),
                ),
                p.degree_bits + params.log_blowup,
            ) is None,
        const_holds(p, pvs, o.alpha@, o.zeta@, p.degree_bits as int, p.degree_bits as int, 0),
    ensures
        const_outcome(o, params, p, pvs) is Ok,
{
    let db = p.degree_bits as int;
    let s = script(p, db, pvs);
    let d = observed_coms(after_ext(before_zeta(p, db, pvs, false)), o.coms@, o.coms@.len());
    let lg = p.degree_bits + params.log_blowup;
    let betas = Seq::new(
        p.fri.commit_phase_commits@.len(),
        |r: int| sampled_ext(at_beta(s, r as nat)),
    );
    law_replay_agrees(p, pvs, params, o.coms@, o.zeta, o.zeta_next, 1);
    lemma_const_height(o, params, p, pvs);
    let rounds = rounds_run(after_ext(d), params, p.fri, round_count(p.fri));
    assert(rounds.betas =~= betas);
    assert forall|q: nat| q < p.fri.query_proofs@.len() implies outcome(
        at_index(s, 0),
        params,
        p.fri,
        o.coms@,
        sampled_ext(d),
        betas,
        lg,
        q,
    ) is None by {
        lemma_from_index(s, q);
        reveal(outcome);
    }
    lemma_outcomes_pass(
        at_index(s, 0),
        params,
        p.fri,
        o.coms@,
        sampled_ext(d),
        betas,
        lg,
        p.fri.query_proofs@.len(),
    );
    law_fri_accepts(d, params, p.fri, o.coms@);
}

proof fn lemma_outcomes_pass(
    d: Duplex,
    params: FriParams,
    f: FriProof,
    coms: Seq<OpenedBatch>,
    alpha: (int, int),
    betas: Seq<(int, int)>,
    log_global: int,
    n: nat,
)
    requires
        forall|q: nat|
            q < n ==> #[trigger] outcome(d, params, f, coms, alpha, betas, log_global, q) is None,
    ensures
        queries_run(d, params, f, coms, alpha, betas, log_global, n).fail is None,
        queries_run(d, params, f, coms, alpha, betas, log_global, n).sponge == behind(d, n),
    decreases n,
{
    if n > 0 {
        let m = (n - 1) as nat;
        lemma_outcomes_pass(d, params, f, coms, alpha, betas, log_global, m);
        lemma_query_step(d, params, f, coms, alpha, betas, log_global, n);
        assert(outcome(d, params, f, coms, alpha, betas, log_global, m) is None);
    }
}

proof fn lemma_from_index(s: Script, q: nat)
    ensures
        behind(at_index(s, 0), q) == at_index(s, q),
    decreases q,
{
    if q > 0 {
        lemma_from_index(s, (q - 1) as nat);
    }
}

proof fn lemma_batch_passed(
    proofs: Seq<BatchOpening>,
    coms: Seq<OpenedBatch>,
    params: FriParams,
    index: int,
    log_global: int,
    n: nat,
    i: int,
)
    requires
        batches_fail(proofs, coms, params, index, log_global, n) is None,
        0 <= i < n,
    ensures
        batch_fail(proofs[i], coms[i], params, index, log_global) is None,
    decreases n,
{
    if i < n - 1 {
        lemma_batch_passed(proofs, coms, params, index, log_global, (n - 1) as nat, i);
    }
}

proof fn lemma_mat_passed(
    rows: Seq<Vec<u64>>,
    mats: Seq<OpenedMatrix>,
    b: int,
    index: int,
    log_global: int,
    n: nat,
    j: int,
)
    requires
        mats_fail(rows, mats, b, index, log_global, n) is None,
        0 <= j < n,
    ensures
        points_fail(
            rows[j]@,
            mats[j].points@,
            deep_point(index, log_global, mats[j].log_size + b),
            mats[j].points@.len(),
        ) is None,
    decreases n,
{
    if j < n - 1 {
        lemma_mat_passed(rows, mats, b, index, log_global, (n - 1) as nat, j);
    }
}

proof fn lemma_point_passed(
    row: Seq<u64>,
    points: Seq<(crate::field::Challenge, Vec<crate::field::Challenge>)>,
    x: int,
    n: nat,
    k: int,
)
    requires
        points_fail(row, points, x, n) is None,
        0 <= k < n,
    ensures
        row.len() == points[k].1.len(),
        ered((points[k].0@.0 - x, points[k].0@.1)) != (0int, 0int),
    decreases n,
{
    if k < n - 1 {
        lemma_point_passed(row, points, x, (n - 1) as nat, k);
    }
}

/// Where the openings of a query pass, every batch is opened against its commitment at the query's index
/// without the bits beyond its own largest matrix, a row for every matrix.
pub proof fn law_batch_opened(
    proofs: Seq<BatchOpening>,
    coms: Seq<OpenedBatch>,
    params: FriParams,
    index: int,
    log_global: int,
    alpha: (int, int),
    i: int,
    h: int,
)
    requires
        index >= 0,
        input_fail(proofs, coms, params, index, log_global, alpha) is None,
        0 <= i < coms.len(),
        h <= log_global,
        forall|j: int|
            0 <= j < coms[i].mats.len() ==> (#[trigger] coms[i].mats@[j]).log_size
                + params.log_blowup <= h,
        exists|j: int|
            0 <= j < coms[i].mats.len() && (#[trigger] coms[i].mats@[j]).log_size
                + params.log_blowup == h,
    ensures
        proofs.len() == coms.len(),
        proofs[i].opened_values.len() == coms[i].mats.len(),
        opening_accepts(
            params.cap_height as int,
            coms[i].cap@,
            Seq::new(
                coms[i].mats@.len(),
                |j: int|
                    (
                        coms[i].mats@[j].points@[0].1.len(),
                        pow2((coms[i].mats@[j].log_size + params.log_blowup) as nat) as usize,
                    ),
            ),
            index / (pow2((log_global - h) as nat) as int),
            Seq::new(
                proofs[i].opened_values@.len(),
                |j: int| crate::field::ints(proofs[i].opened_values@[j]@),
            ),
            proofs[i].path@,
        ),
{
    let b = params.log_blowup as int;
    let mats = coms[i].mats@;
    lemma_batch_passed(proofs, coms, params, index, log_global, coms.len(), i);
    lemma_highest_all(mats, b, mats.len());
    let top = choose|j: int|
        0 <= j < coms[i].mats.len() && (#[trigger] coms[i].mats@[j]).log_size + params.log_blowup
            == h;
    assert(mats[top].log_size + b <= highest(mats, b, mats.len()));
    let most = choose|j: int|
        0 <= j < mats.len() && (#[trigger] mats[j]).log_size + b == highest(mats, b, mats.len());
    assert(coms[i].mats@[most].log_size + params.log_blowup <= h);
    assert(highest(mats, b, mats.len()) == h);
    crate::bits::lemma_shr(index, (log_global - h) as nat);
    assert(dims_z(mats, b) =~= Seq::new(
        coms[i].mats@.len(),
        |j: int|
            (
                coms[i].mats@[j].points@[0].1.len(),
                pow2((coms[i].mats@[j].log_size + params.log_blowup) as nat) as usize,
            ),
    ));
    assert(rows_z(proofs[i].opened_values@) =~= Seq::new(
        proofs[i].opened_values@.len(),
        |j: int| crate::field::ints(proofs[i].opened_values@[j]@),
    ));
}

/// Where the openings of a query pass, every opening point of every matrix claims as many values as the
/// matrix's row has, and is not the query's own point: the generator of the field times the point of the
/// matrix's subgroup at the query's index, without the bits beyond the matrix.
pub proof fn law_point_opened(
    proofs: Seq<BatchOpening>,
    coms: Seq<OpenedBatch>,
    params: FriParams,
    index: int,
    log_global: int,
    alpha: (int, int),
    i: int,
    j: int,
    k: int,
)
    requires
        index >= 0,
        input_fail(proofs, coms, params, index, log_global, alpha) is None,
        0 <= i < coms.len(),
        0 <= j < coms[i].mats.len(),
        0 <= k < coms[i].mats@[j].points.len(),
        coms[i].mats@[j].log_size + params.log_blowup <= log_global,
    ensures
        ({
            let h = coms[i].mats@[j].log_size + params.log_blowup;
            let x = red(
                7 * query_point(index / (pow2((log_global - h) as nat) as int), h as nat),
            );
            let (z, claimed) = coms[i].mats@[j].points@[k];
            &&& proofs[i].opened_values@[j].len() == claimed.len()
            &&& ered((z@.0 - x, z@.1)) != (0int, 0int)
        }),
{
    let b = params.log_blowup as int;
    let mats = coms[i].mats@;
    let rows = proofs[i].opened_values@;
    let h = mats[j].log_size + b;
    lemma_batch_passed(proofs, coms, params, index, log_global, coms.len(), i);
    lemma_mat_passed(rows, mats, b, index, log_global, mats.len(), j);
    crate::bits::lemma_shr(index, (log_global - h) as nat);
    lemma_point_passed(
        rows[j]@,
        mats[j].points@,
        deep_point(index, log_global, h),
        mats[j].points@.len(),
        k,
    );
}

/// A height that a matrix reaches has a reduced opening of its terms at the query's point there, and the
/// openings are listed from the largest height down.
pub proof fn law_heights_listed(
    proofs: Seq<BatchOpening>,
    coms: Seq<OpenedBatch>,
    b: int,
    index: int,
    log_global: int,
    alpha: (int, int),
    n: nat,
)
    requires
        index >= 0,
        n <= log_global + 1,
    ensures
        ({
            let ros = crate::fri_input::listed(proofs, coms, b, index, log_global, alpha, n);
            &&& forall|i: int, j: int|
                #![trigger coms[i].mats@[j]]
                0 <= i < coms.len() && 0 <= j < coms[i].mats.len() && log_global - n
                    < coms[i].mats@[j].log_size + b <= log_global ==> exists|at: int|
                    {
                        let h = coms[i].mats@[j].log_size + b;
                        &&& 0 <= at < ros.len()
                        &&& (#[trigger] ros[at]).0 == h
                        &&& ros[at].1 == opening_of(
                            all_terms(proofs, coms, b, h, coms.len()),
                            red(
                                7 * query_point(
                                    index / (pow2((log_global - h) as nat) as int),
                                    h as nat,
                                ),
                            ),
                            alpha,
                        )
                    }
            &&& forall|x: int, y: int|
                0 <= x < y < ros.len() ==> (#[trigger] ros[x]).0 > (#[trigger] ros[y]).0
            &&& forall|x: int| 0 <= x < ros.len() ==> log_global - n < (#[trigger] ros[x]).0 <= log_global
        }),
    decreases n,
{
    let ros = crate::fri_input::listed(proofs, coms, b, index, log_global, alpha, n);
    if n > 0 {
        let m = (n - 1) as nat;
        law_heights_listed(proofs, coms, b, index, log_global, alpha, m);
        let before = crate::fri_input::listed(proofs, coms, b, index, log_global, alpha, m);
        let low = log_global - m;
        assert forall|i: int, j: int|
            #![trigger coms[i].mats@[j]]
            0 <= i < coms.len() && 0 <= j < coms[i].mats.len() && log_global - n
                < coms[i].mats@[j].log_size + b <= log_global implies exists|at: int|
            {
                let h = coms[i].mats@[j].log_size + b;
                &&& 0 <= at < ros.len()
                &&& (#[trigger] ros[at]).0 == h
                &&& ros[at].1 == opening_of(
                    all_terms(proofs, coms, b, h, coms.len()),
                    red(
                        7 * query_point(
                            index / (pow2((log_global - h) as nat) as int),
                            h as nat,
                        ),
                    ),
                    alpha,
                )
            } by {
            let h = coms[i].mats@[j].log_size + b;
            crate::bits::lemma_shr(index, (log_global - h) as nat);
            if h == low {
                assert(log_height_of(coms[i].mats@[j], b) == h);
                assert(mats_reach(coms[i].mats@, b, h, coms[i].mats@.len()));
                assert(reached(coms, b, h, coms.len()));
                assert(ros[before.len() as int].0 == h);
            } else {
                let at = choose|at: int|
                    {
                        &&& 0 <= at < before.len()
                        &&& (#[trigger] before[at]).0 == h
                        &&& before[at].1 == opening_of(
                            all_terms(proofs, coms, b, h, coms.len()),
                            red(
                                7 * query_point(
                                    index / (pow2((log_global - h) as nat) as int),
                                    h as nat,
                                ),
                            ),
                            alpha,
                        )
                    };
                assert(ros[at] == before[at]);
            }
        }
    }
}

/// Every opened column of every matrix of a height goes into the reduced opening of that height with the
/// value claimed of it, once for every opening point.
pub proof fn law_terms_listed(
    proofs: Seq<BatchOpening>,
    coms: Seq<OpenedBatch>,
    b: int,
    i: int,
    j: int,
    k: int,
    t: int,
)
    requires
        0 <= i < coms.len(),
        0 <= j < coms[i].mats.len(),
        0 <= k < coms[i].mats@[j].points.len(),
        0 <= t < coms[i].mats@[j].points@[k].1.len(),
    ensures
        all_terms(
            proofs,
            coms,
            b,
            coms[i].mats@[j].log_size + b,
            coms.len(),
        ).contains(
            (crate::monolith::cells::Term {
                z: coms[i].mats@[j].points@[k].0,
                pz: coms[i].mats@[j].points@[k].1@[t],
                px: proofs[i].opened_values@[j]@[t],
            }),
        ),
{
    let h = coms[i].mats@[j].log_size + b;
    let (row, points) = (proofs[i].opened_values@[j]@, coms[i].mats@[j].points@);
    let term = crate::monolith::cells::Term { z: points[k].0, pz: points[k].1@[t], px: row[t] };
    lemma_mat_term(row, points, points.len(), k, t);
    lemma_batch_term(
        proofs[i].opened_values@,
        coms[i].mats@,
        b,
        h,
        coms[i].mats@.len(),
        j,
        term,
    );
    lemma_all_term(proofs, coms, b, h, coms.len(), i, term);
}

proof fn lemma_in_sum<A>(a: Seq<A>, b: Seq<A>, x: A)
    requires
        a.contains(x) || b.contains(x),
    ensures
        (a + b).contains(x),
{
    if a.contains(x) {
        let k = a.index_of(x);
        assert((a + b)[k] == x);
    } else {
        let k = b.index_of(x);
        assert((a + b)[a.len() + k] == x);
    }
}

proof fn lemma_mat_term(
    row: Seq<u64>,
    points: Seq<(crate::field::Challenge, Vec<crate::field::Challenge>)>,
    n: nat,
    k: int,
    t: int,
)
    requires
        n <= points.len(),
        0 <= k < n,
        0 <= t < points[k].1.len(),
    ensures
        crate::fri_input::mat_terms(row, points, n).contains(
            (crate::monolith::cells::Term { z: points[k].0, pz: points[k].1@[t], px: row[t] }),
        ),
    decreases n,
{
    let term = crate::monolith::cells::Term { z: points[k].0, pz: points[k].1@[t], px: row[t] };
    let m = (n - 1) as nat;
    let own = crate::fri_input::point_terms(row, points[m as int].0, points[m as int].1@);
    if k < m {
        lemma_mat_term(row, points, m, k, t);
    } else {
        assert(own[t] == term);
    }
    lemma_in_sum(crate::fri_input::mat_terms(row, points, m), own, term);
}

proof fn lemma_batch_term(
    rows: Seq<Vec<u64>>,
    mats: Seq<OpenedMatrix>,
    b: int,
    h: int,
    n: nat,
    j: int,
    term: crate::monolith::cells::Term,
)
    requires
        0 <= j < n <= mats.len(),
        mats[j].log_size + b == h,
        crate::fri_input::mat_terms(rows[j]@, mats[j].points@, mats[j].points@.len()).contains(term),
    ensures
        crate::fri_input::batch_terms(rows, mats, b, h, n).contains(term),
    decreases n,
{
    let m = (n - 1) as nat;
    let mat = mats[m as int];
    let own = if log_height_of(mat, b) == h {
        crate::fri_input::mat_terms(rows[m as int]@, mat.points@, mat.points@.len())
    } else {
        seq![]
    };
    if j < m {
        lemma_batch_term(rows, mats, b, h, m, j, term);
    }
    lemma_in_sum(crate::fri_input::batch_terms(rows, mats, b, h, m), own, term);
}

proof fn lemma_all_term(
    proofs: Seq<BatchOpening>,
    coms: Seq<OpenedBatch>,
    b: int,
    h: int,
    n: nat,
    i: int,
    term: crate::monolith::cells::Term,
)
    requires
        0 <= i < n <= coms.len(),
        crate::fri_input::batch_terms(
            proofs[i].opened_values@,
            coms[i].mats@,
            b,
            h,
            coms[i].mats@.len(),
        ).contains(term),
    ensures
        all_terms(proofs, coms, b, h, n).contains(term),
    decreases n,
{
    let m = (n - 1) as nat;
    let own = crate::fri_input::batch_terms(
        proofs[m as int].opened_values@,
        coms[m as int].mats@,
        b,
        h,
        coms[m as int].mats@.len(),
    );
    if i < m {
        lemma_all_term(proofs, coms, b, h, m, i, term);
    }
    lemma_in_sum(all_terms(proofs, coms, b, h, m), own, term);
}

/// The sum of the arities of the first `n` rounds.
pub open spec fn arity_sum(steps: Seq<CommitStep>, n: nat) -> int
    decreases n,
{
    if n == 0 {
        0
    } else {
        arity_sum(steps, (n - 1) as nat) + steps[n - 1].opening.log_arity
    }
}

/// A fold that does not fail gave up the low bits of its index and the height of its domain, arity by
/// arity.
pub proof fn law_fold_descends(
    start: Fold,
    params: FriParams,
    steps: Seq<CommitStep>,
    ros: Seq<(int, (int, int))>,
    n: nat,
)
    requires
        start.index >= 0,
        start.fail is None,
        fold_run(start, params, steps, ros, n).fail is None,
    ensures
        ({
            let end = fold_run(start, params, steps, ros, n);
            &&& end.log_height == start.log_height - arity_sum(steps, n)
            &&& end.index == start.index / (pow2(arity_sum(steps, n) as nat) as int)
            &&& arity_sum(steps, n) >= 0
            &&& forall|r: nat|
                r < n ==> (#[trigger] fold_run(start, params, steps, ros, r)).fail is None
        }),
    decreases n,
{
    vstd::arithmetic::power2::lemma2_to64();
    if n == 0 {
        vstd::arithmetic::div_mod::lemma_div_basics(start.index);
    } else {
        let m = (n - 1) as nat;
        let f = fold_run(start, params, steps, ros, m);
        law_fold_descends(start, params, steps, ros, m);
        let (a, la) = (arity_sum(steps, m) as nat, steps[n - 1].opening.log_arity as nat);
        vstd::arithmetic::power2::lemma_pow2_pos(a);
        vstd::arithmetic::power2::lemma_pow2_pos(la);
        vstd::arithmetic::power2::lemma_pow2_adds(a, la);
        vstd::arithmetic::div_mod::lemma_div_denominator(
            start.index,
            pow2(a) as int,
            pow2(la) as int,
        );
        vstd::arithmetic::div_mod::lemma_div_pos_is_pos(start.index, pow2(a) as int);
        crate::bits::lemma_shr(f.index, la);
    }
}

/// A round of a fold that does not fail has an arity within the bound and the height, all siblings of
/// its group and no more, and a group that its commitment opens to at the index behind the round: the
/// running evaluation stands in it where the low bits of the index say, the siblings around it in order.
/// The value behind the round is that of the folded group, with the reduced opening of the new height,
/// where there is one, times the challenge to the power of the arity.
pub proof fn law_fold_round(
    f: Fold,
    params: FriParams,
    round: int,
    step: CommitStep,
    ros: Seq<(int, (int, int))>,
    group: Seq<(int, int)>,
)
    requires
        f.fail is None,
        f.index >= 0,
        f.taken >= 0,
        fold_step(f, params, round, step, ros).fail is None,
        group.len() == step.opening.sibling_values.len() + 1,
        ({
            let slot = f.index % (pow2(step.opening.log_arity as nat) as int);
            &&& forall|j: int|
                0 <= j < group.len() && j < slot ==> #[trigger] group[j]
                    == step.opening.sibling_values@[j]@
            &&& 0 <= slot < group.len() ==> group[slot] == f.eval
            &&& forall|j: int|
                0 <= j < group.len() && j > slot ==> #[trigger] group[j]
                    == step.opening.sibling_values@[j - 1]@
        }),
    ensures
        1 <= step.opening.log_arity <= params.max_log_arity,
        step.opening.log_arity <= f.log_height,
        step.opening.sibling_values.len() == pow2(step.opening.log_arity as nat) - 1,
        ({
            let la = step.opening.log_arity as nat;
            let at = f.index / (pow2(la) as int);
            let low = f.log_height - la;
            let more = f.taken < ros.len() && ros[f.taken].0 == low;
            let value = crate::native_fri::folded(at, low as nat, la, step.beta@, group);
            let g = fold_step(f, params, round, step, ros);
            &&& crate::mmcs::group_accepts(
                params.cap_height as int,
                step.commit@,
                low as nat,
                at,
                group,
                step.opening.path@,
            )
            &&& g.index == at
            &&& g.log_height == low
            &&& !more ==> g.eval == value && g.taken == f.taken
            &&& more ==> g.taken == f.taken + 1 && g.eval == ered(
                zadd(value, zmul(epow2k(step.beta@, la), ros[f.taken].1)),
            )
        }),
{
    let la = step.opening.log_arity as nat;
    crate::bits::lemma_shr(f.index, la);
    let slot = f.index % (pow2(la) as int);
    vstd::arithmetic::power2::lemma_pow2_pos(la);
    let own = crate::fri_query::group_z(f.eval, views(step.opening.sibling_values@), slot);
    assert(own =~= group) by {
        assert forall|j: int| 0 <= j < group.len() implies own[j] == group[j] by {
            if j < slot {
                assert(group[j] == step.opening.sibling_values@[j]@);
            } else if j > slot {
                assert(group[j] == step.opening.sibling_values@[j - 1]@);
            }
        }
    }
}

} // verus!
