//! A replayed transcript gives the challenges that the check of the proof draws.
use crate::challenger::{
    after_ext, observed, observed_all, observed_exts, sampled_ext, views, Duplex,
};
use crate::field::Challenge;
use crate::fri_input::{OpenedBatch, OpenedMatrix};
use crate::fri_query::FriParams;
use crate::fri_verify::{after_witness, queries_run, round_count, rounds_run};
use crate::plain_proof::{arities_z, cap_z, flat, opened_z, FriProof, PlainProof};
use crate::replay::{
    at_alpha, at_alpha_fri, at_beta, at_index, at_pow, at_zeta, caps_z, rounds_done, script, Script,
};
use crate::stark::{
    before_alpha, before_zeta, observed_coms, observed_mats, observed_points, opened_once,
    quotient_mats, rounds_are,
};
use vstd::prelude::*;

verus! {

proof fn lemma_exts_append(d: Duplex, a: Seq<(int, int)>, b: Seq<(int, int)>)
    ensures
        observed_exts(d, a + b) == observed_exts(observed_exts(d, a), b),
    decreases b.len(),
{
    if b.len() == 0 {
        assert(a + b =~= a);
    } else {
        lemma_exts_append(d, a, b.drop_last());
        assert((a + b).drop_last() =~= a + b.drop_last());
    }
}

proof fn lemma_chunks(
    e: Duplex,
    mats: Seq<OpenedMatrix>,
    p: PlainProof,
    zeta: Challenge,
    n: nat,
)
    requires
        n <= mats.len(),
        n <= p.quotient_chunks@.len(),
        forall|i: int|
            0 <= i < n ==> opened_once(
                #[trigger] mats[i],
                p.degree_bits as int,
                zeta,
                p.quotient_chunks@[i]@,
            ),
    ensures
        observed_mats(e, mats, n) == observed_exts(e, flat(p.quotient_chunks@, n)),
    decreases n,
{
    if n > 0 {
        let k = (n - 1) as nat;
        lemma_chunks(e, mats, p, zeta, k);
        lemma_exts_append(e, flat(p.quotient_chunks@, k), views(p.quotient_chunks@[k as int]@));
        let m = mats[k as int];
        assert(opened_once(mats[k as int], p.degree_bits as int, zeta, p.quotient_chunks@[k as int]@));
        let g = observed_mats(e, mats, k);
        assert(observed_points(g, m.points@, 0) == g);
        assert(observed_points(g, m.points@, 1) == observed_exts(g, views(m.points@[0].1@)));
    }
}

/// The opened values of a proof without hiding go in as its script says.
proof fn lemma_openings(
    d: Duplex,
    coms: Seq<OpenedBatch>,
    p: PlainProof,
    zeta: Challenge,
    zeta_next: Challenge,
    num_chunks: int,
)
    requires
        num_chunks >= p.quotient_chunks.len(),
        rounds_are(coms, p, zeta, zeta_next, p.trace_next is Some, num_chunks, false),
    ensures
        observed_coms(d, coms, coms.len()) == observed_exts(d, opened_z(p)),
{
    let points = coms[0].mats@[0].points@;
    let q = coms[1].mats@;
    let a = views(p.trace_local@);
    let b: Seq<(int, int)> = match p.trace_next {
        Some(v) => views(v@),
        None => seq![],
    };
    let c = flat(p.quotient_chunks@, p.quotient_chunks@.len());
    lemma_exts_append(d, a + b, c);
    lemma_exts_append(d, a, b);
    let d1 = observed_exts(d, a);
    assert(observed_points(d, points, 0) == d);
    assert(observed_points(d, points, 1) == d1);
    let d2 = observed_exts(d1, b);
    if p.trace_next is Some {
        assert(observed_points(d, points, 2) == d2);
    } else {
        assert(d2 == d1);
    }
    assert(observed_mats(d, coms[0].mats@, 0) == d);
    assert(observed_mats(d, coms[0].mats@, 1) == d2);
    assert(observed_coms(d, coms, 0) == d);
    assert(observed_coms(d, coms, 1) == d2);
    assert forall|i: int| 0 <= i < q.len() implies opened_once(
        #[trigger] q[i],
        p.degree_bits as int,
        zeta,
        p.quotient_chunks@[i]@,
    ) by {
        assert(q[i] == quotient_mats(coms, p, false)[i]);
    }
    lemma_chunks(d2, q, p, zeta, q.len());
    assert(observed_coms(d, coms, 2) == observed_mats(d2, q, q.len()));
}

proof fn lemma_rounds(s: Script, params: FriParams, f: FriProof, n: nat)
    requires
        params.commit_pow_bits == 0,
        n <= round_count(f),
        s.caps == caps_z(f),
    ensures
        ({
            let run = rounds_run(after_ext(at_alpha_fri(s)), params, f, n);
            &&& run.fail is None
            &&& run.sponge == rounds_done(s, n)
            &&& run.betas.len() == n
            &&& forall|r: int|
                0 <= r < n ==> #[trigger] run.betas[r] == sampled_ext(at_beta(s, r as nat))
        }),
    decreases n,
{
    if n > 0 {
        lemma_rounds(s, params, f, (n - 1) as nat);
        assert(s.caps[n - 1] == cap_z(f.commit_phase_commits@[n - 1]@));
    }
}

proof fn lemma_queries(
    s: Script,
    params: FriParams,
    f: FriProof,
    coms: Seq<OpenedBatch>,
    alpha: (int, int),
    betas: Seq<(int, int)>,
    log_global: int,
    q: nat,
)
    requires
        queries_run(at_index(s, 0), params, f, coms, alpha, betas, log_global, q).fail is None,
    ensures
        queries_run(at_index(s, 0), params, f, coms, alpha, betas, log_global, q).sponge == at_index(
            s,
            q,
        ),
    decreases q,
{
    if q > 0 {
        lemma_queries(s, params, f, coms, alpha, betas, log_global, (q - 1) as nat);
    }
}

/// The check of a proof without hiding, with a commit phase without a proof of work, draws the
/// challenges of the proof's script: the first challenge and the out-of-domain point, the batching
/// challenge, the fold challenges, and behind the query proof of work every query index.
pub proof fn law_replay_agrees(
    p: PlainProof,
    pvs: Seq<int>,
    params: FriParams,
    coms: Seq<OpenedBatch>,
    zeta: Challenge,
    zeta_next: Challenge,
    num_chunks: int,
)
    requires
        num_chunks >= p.quotient_chunks.len(),
        rounds_are(coms, p, zeta, zeta_next, p.trace_next is Some, num_chunks, false),
        params.commit_pow_bits == 0,
        params.query_pow_bits > 0,
        p.fri.commit_pow_witnesses.len() >= p.fri.commit_phase_commits.len(),
    ensures
        ({
            let db = p.degree_bits as int;
            let s = script(p, db, pvs);
            let d = observed_coms(after_ext(before_zeta(p, db, pvs, false)), coms, coms.len());
            let run = rounds_run(after_ext(d), params, p.fri, round_count(p.fri));
            let e = observed_all(
                observed_exts(run.sponge, views(p.fri.final_poly@)),
                arities_z(p.fri),
            );
            let w = p.fri.query_pow_witness as int;
            let first = after_witness(e, params.query_pow_bits as int, w);
            &&& before_alpha(p, db, pvs) == at_alpha(s)
            &&& before_zeta(p, db, pvs, false) == at_zeta(s)
            &&& d == at_alpha_fri(s)
            &&& run.fail is None
            &&& run.betas.len() == s.caps.len()
            &&& forall|r: int|
                0 <= r < s.caps.len() ==> #[trigger] run.betas[r] == sampled_ext(
                    at_beta(s, r as nat),
                )
            &&& observed(e, w) == at_pow(s)
            &&& first == at_index(s, 0)
            &&& forall|alpha: (int, int), log_global: int, q: nat|
                (#[trigger] queries_run(
                    first,
                    params,
                    p.fri,
                    coms,
                    alpha,
                    run.betas,
                    log_global,
                    q,
                )).fail is None ==> queries_run(
                    first,
                    params,
                    p.fri,
                    coms,
                    alpha,
                    run.betas,
                    log_global,
                    q,
                ).sponge == at_index(s, q)
        }),
{
    let db = p.degree_bits as int;
    let s = script(p, db, pvs);
    let d0 = after_ext(before_zeta(p, db, pvs, false));
    lemma_openings(d0, coms, p, zeta, zeta_next, num_chunks);
    lemma_rounds(s, params, p.fri, round_count(p.fri));
    let run = rounds_run(after_ext(at_alpha_fri(s)), params, p.fri, round_count(p.fri));
    assert forall|alpha: (int, int), log_global: int, q: nat|
        (#[trigger] queries_run(
            at_index(s, 0),
            params,
            p.fri,
            coms,
            alpha,
            run.betas,
            log_global,
            q,
        )).fail is None implies queries_run(
        at_index(s, 0),
        params,
        p.fri,
        coms,
        alpha,
        run.betas,
        log_global,
        q,
    ).sponge == at_index(s, q) by {
        lemma_queries(s, params, p.fri, coms, alpha, run.betas, log_global, q);
    }
}

} // verus!
