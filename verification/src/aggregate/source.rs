//! The window of a hiding inner proof, from the proof: its replayed transcript, the openings of its
//! queries, and the values that it shows.
use super::fault::LayoutFault;
use super::options::{
    checked_trace_felts_with_limit, estimate_z, over_limit, AggregationError, BLOWUP,
};
use super::window::{
    bad_salts, hiding_witness_for_query, public_window, salted, selector_window, selectors_z,
    validate_binary_fri_shape, wide_opening, wide_query, window_z, witness_is,
    HidingWitness,
};
use crate::bits::{shift_index, shr_z};
use crate::challenger::views;
use crate::epilogue::folded_z;
use crate::field::{eadd, efrom, emul, eone, esub, ezero, fmul, ints, red, Challenge, GENERATOR};
use crate::fri_input::{lemma_opening_push, lemma_term, OpenedBatch};
use crate::merkle::{path_z, Digest};
use crate::mmcs::{index_path, path_of};
use crate::monolith::cells::{inverse_at, off_points, off_points_at, power_z, Query, Term};
use crate::monolith::fused_trace::{GroupOpening, TileOpenings};
use crate::monolith::general::two_to;
use crate::monolith::query::opening_of;
use crate::native_fri::{query_point, subgroup_point};
use crate::plain_proof::{codewords_ok, CommitOpening, PlainProof, QueryProof};
use crate::query_data::{
    binary, groups_are, query_fold_data, query_groups, query_terms, query_terms_z, rounds_of,
};
use crate::replay::{hiding_script, script, sim_full, sim_full_hiding, Replay};
use vstd::arithmetic::power2::{lemma_pow2_pos, pow2};
use vstd::prelude::*;

verus! {

/// The reduced opening of a list of terms; `None` where an opening point is the query point.
pub fn reduced_opening(terms: &Vec<Term>, x: u64, alpha: Challenge) -> (r: Option<Challenge>)
    ensures
        match r {
            Some(ro) => off_points(terms@, x as int) && ro@ == opening_of(terms@, x as int, alpha@),
            None => !off_points(terms@, x as int),
        },
{
    if !off_points_at(terms, x) {
        return None;
    }
    let n: usize = terms.len();
    let mut power: Challenge = eone();
    let mut ro: Challenge = ezero();
    assert(terms@.take(0) =~= Seq::<Term>::empty());
    for k in 0..n
        invariant
            n == terms.len(),
            off_points(terms@, x as int),
            power@ == power_z(alpha@, k as nat),
            ro@ == opening_of(terms@.take(k as int), x as int, alpha@),
    {
        let t: Term = terms[k];
        let ghost before = terms@.take(k as int);
        assert(terms@[k as int] == t);
        let q: Challenge = inverse_at(t.z, x);
        proof {
            assert(terms@.take(k + 1) =~= before.push(t));
            lemma_opening_push(before, t, x as int, alpha@);
            lemma_term(power@, t.pz@, t.px as int, q@, ro@);
        }
        ro = eadd(ro, emul(emul(power, esub(t.pz, efrom(t.px))), q));
        power = emul(power, alpha);
    }
    assert(terms@.take(n as int) =~= terms@);
    Some(ro)
}

/// What a window takes besides the proof: the rounds that the proof opens, the degree of the trace
/// without its randomisation, the public values, the periodic values and the weights of the quotient
/// chunks at the out-of-domain point, and the selectors and the values of the constraints there.
#[derive(Debug)]
pub struct WindowInputs {
    pub coms: Vec<OpenedBatch>,
    pub base_degree_bits: usize,
    pub public_values: Vec<u64>,
    pub periodic: Vec<Challenge>,
    pub weights: Vec<Challenge>,
    pub is_first: Challenge,
    pub is_last: Challenge,
    pub inv_van: Challenge,
    pub constraints: Vec<Challenge>,
}

/// What the geometry of the inner region gives.
#[derive(Clone, Copy, Debug)]
pub struct WindowShape {
    pub log_blowup: usize,
    pub num_quotient_chunks: usize,
    pub pis_count: usize,
    pub m_period: usize,
    pub fused_w: usize,
    pub limit_felts: usize,
    pub fold_chunk: usize,
}

/// The openings of a query of a hiding proof: those of its tile, and its salts.
#[derive(Debug)]
pub struct WindowQuery {
    pub tile: TileOpenings,
    pub witness: HidingWitness,
}

/// The window of a hiding inner proof.
#[derive(Debug)]
pub struct SymbolicHidingInnerWindow {
    pub replay: Replay,
    pub queries: Vec<WindowQuery>,
    pub pub_window: Vec<u64>,
    pub selector_window: Vec<u64>,
    pub folded: Challenge,
    pub n_terms: usize,
}

/// The logarithm of the height that the folds of a query start from.
pub open spec fn query_height(q: QueryProof, log_blowup: int) -> int {
    q.commit_phase_openings.len() + log_blowup
}

/// The index of a query, from its element.
pub open spec fn query_index(felt: int, log_global: int) -> int {
    felt % (pow2(log_global as nat) as int)
}

/// The query point at the full height.
pub open spec fn full_point(index: int, log_global: int) -> int {
    red(GENERATOR * query_point(index, log_global as nat))
}

/// The proof has what its window reads: a query, the random codewords, and in every query salts, and one
/// sibling for every fold, no more folds than there are commitments, and a height that the field has.
pub open spec fn window_ready(p: PlainProof, log_blowup: int) -> bool {
    &&& p.fri.query_proofs.len() > 0
    &&& p.fri.final_poly.len() > 0
    &&& codewords_ok(p)
    &&& forall|q: int|
        0 <= q < p.fri.query_proofs.len() ==> query_ready(
            #[trigger] p.fri.query_proofs@[q],
            log_blowup,
            p.fri.commit_phase_commits.len() as int,
        )
}

pub open spec fn query_ready(q: QueryProof, log_blowup: int, commits: int) -> bool {
    &&& query_fits(q, log_blowup, commits)
    &&& salted(q)
    &&& forall|r: int|
        0 <= r < q.commit_phase_openings.len() ==> (
        #[trigger] q.commit_phase_openings@[r]).log_arity == 1
            ==> q.commit_phase_openings@[r].sibling_values.len() == 1
}

/// A query has no more folds than there are commitments, and a height that the field has.
pub open spec fn query_fits(q: QueryProof, log_blowup: int, commits: int) -> bool {
    &&& q.commit_phase_openings.len() <= commits
    &&& query_height(q, log_blowup) <= 32
    &&& pow2(query_height(q, log_blowup) as nat) <= usize::MAX
}

/// The opening points are not the query point.
pub open spec fn query_apart(
    q: QueryProof,
    coms: Seq<OpenedBatch>,
    felt: int,
    log_blowup: int,
) -> bool {
    let lg = query_height(q, log_blowup);
    off_points(
        query_terms_z(q.input_proof@, coms),
        full_point(query_index(felt, lg), lg),
    )
}

/// What a query is refused for: another number of terms than `n_terms`, missing rounds, a salt of another
/// length, or an opening point at the query point.
pub open spec fn window_query_fail(
    q: QueryProof,
    coms: Seq<OpenedBatch>,
    n_terms: nat,
    felt: int,
    log_blowup: int,
) -> Option<AggregationError> {
    if query_terms_z(q.input_proof@, coms).len() != n_terms {
        Some(AggregationError::MismatchedInnerShape)
    } else if q.input_proof.len() < 3 {
        Some(AggregationError::TraceLayout(LayoutFault::MissingRounds))
    } else if bad_salts(q) {
        Some(AggregationError::TraceLayout(LayoutFault::SaltLength))
    } else if !query_apart(q, coms, felt, log_blowup) {
        Some(AggregationError::InnerProofRejected)
    } else {
        None
    }
}

/// The openings of a query's tile. The trace is the round `tr` of the inputs and the quotient the round
/// `qt`, which is committed `shift` levels lower than the trace.
pub open spec fn tile_is(
    t: TileOpenings,
    q: QueryProof,
    coms: Seq<OpenedBatch>,
    felt: int,
    alpha: Challenge,
    betas: Seq<Challenge>,
    log_blowup: int,
    tr: int,
    qt: int,
    shift: nat,
) -> bool {
    let lg = query_height(q, log_blowup);
    let index = query_index(felt, lg);
    let terms = query_terms_z(q.input_proof@, coms);
    &&& t.query.index == index
    &&& t.query.terms@ == terms
    &&& t.query.alpha == alpha
    &&& t.query.ro@ == opening_of(terms, full_point(index, lg), alpha@)
    &&& rounds_of(t.query.rounds@, q.commit_phase_openings@, betas, index, lg)
    &&& t.v == 0
    &&& path_z(t.path@) == index_path(q.input_proof@[tr].path@, index)
    &&& path_z(t.quot_path@) == index_path(q.input_proof@[qt].path@, shr_z(index, shift))
    &&& groups_are(
        t.commits@,
        q.commit_phase_openings@,
        t.query.rounds@,
        t.query.ro@,
        index,
    )
}

/// The openings of a query's tile; `None` where an opening point is the query point.
fn query_tile(
    q: &QueryProof,
    coms: &Vec<OpenedBatch>,
    terms: Vec<Term>,
    felt: u64,
    alpha: Challenge,
    betas: &Vec<Challenge>,
    log_blowup: usize,
    tr: usize,
    qt: usize,
    shift: usize,
) -> (r: Option<TileOpenings>)
    requires
        terms@ == query_terms_z(q.input_proof@, coms@),
        query_fits(*q, log_blowup as int, betas.len() as int),
        binary(q.commit_phase_openings@),
        tr < q.input_proof.len(),
        qt < q.input_proof.len(),
    ensures
        match r {
            Some(t) => {
                &&& query_apart(*q, coms@, felt as int, log_blowup as int)
                &&& tile_is(
                    t,
                    *q,
                    coms@,
                    felt as int,
                    alpha,
                    betas@,
                    log_blowup as int,
                    tr as int,
                    qt as int,
                    shift as nat,
                )
            },
            None => !query_apart(*q, coms@, felt as int, log_blowup as int),
        },
{
    let lg: usize = q.commit_phase_openings.len() + log_blowup;
    let size: usize = two_to(lg);
    proof {
        lemma_pow2_pos(lg as nat);
    }
    let index: usize = (felt % (size as u64)) as usize;
    let x: u64 = fmul(GENERATOR, subgroup_point(index, lg));
    let ro: Challenge = match reduced_opening(&terms, x, alpha) {
        None => {
            return None;
        },
        Some(ro) => ro,
    };
    let (rounds, _folded) = query_fold_data(&q.commit_phase_openings, betas, index, lg, ro);
    let commits: Vec<GroupOpening> = query_groups(&q.commit_phase_openings, &rounds, ro, index);
    let path: Vec<(Digest, bool)> = path_of(&q.input_proof[tr].path, index);
    let quot_path: Vec<(Digest, bool)> = path_of(
        &q.input_proof[qt].path,
        shift_index(index, shift),
    );
    let query: Query = Query { index: index as u64, terms, alpha, ro, rounds };
    Some(TileOpenings { query, v: 0, path, quot_path, commits })
}

/// The openings of a query of a hiding proof. Its random round comes before the trace and the quotient.
pub open spec fn window_query_is(
    w: WindowQuery,
    q: QueryProof,
    coms: Seq<OpenedBatch>,
    felt: int,
    alpha: Challenge,
    betas: Seq<Challenge>,
    log_blowup: int,
) -> bool {
    let index = query_index(felt, query_height(q, log_blowup));
    &&& tile_is(w.tile, q, coms, felt, alpha, betas, log_blowup, 1, 2, 0)
    &&& witness_is(w.witness, q, index)
}

/// The openings of one query.
fn window_query(
    q: &QueryProof,
    coms: &Vec<OpenedBatch>,
    n_terms: usize,
    felt: u64,
    alpha: Challenge,
    betas: &Vec<Challenge>,
    log_blowup: usize,
) -> (r: Result<WindowQuery, AggregationError>)
    requires
        query_ready(*q, log_blowup as int, betas.len() as int),
        wide_opening(q.commit_phase_openings@, q.commit_phase_openings@.len()) is None,
    ensures
        match r {
            Ok(w) => {
                &&& window_query_fail(
                    *q,
                    coms@,
                    n_terms as nat,
                    felt as int,
                    log_blowup as int,
                ) is None
                &&& window_query_is(
                    w,
                    *q,
                    coms@,
                    felt as int,
                    alpha,
                    betas@,
                    log_blowup as int,
                )
            },
            Err(e) => window_query_fail(
                *q,
                coms@,
                n_terms as nat,
                felt as int,
                log_blowup as int,
            ) == Some(e),
        },
{
    let terms: Vec<Term> = query_terms(&q.input_proof, coms);
    if terms.len() != n_terms {
        return Err(AggregationError::MismatchedInnerShape);
    }
    let lg: usize = q.commit_phase_openings.len() + log_blowup;
    let size: usize = two_to(lg);
    proof {
        lemma_pow2_pos(lg as nat);
        lemma_narrow(q.commit_phase_openings@, q.commit_phase_openings@.len());
    }
    let index: usize = (felt % (size as u64)) as usize;
    let witness: HidingWitness = match hiding_witness_for_query(q, index) {
        Err(e) => {
            return Err(e);
        },
        Ok(w) => w,
    };
    proof {
        if bad_salts(*q) {
            lemma_salts(*q, witness, index as int);
        }
        assert(shr_z(index as int, 0) == index);
    }
    match query_tile(q, coms, terms, felt, alpha, betas, log_blowup, 1, 2, 0) {
        None => Err(AggregationError::InnerProofRejected),
        Some(tile) => Ok(WindowQuery { tile, witness }),
    }
}

proof fn lemma_narrow(o: Seq<CommitOpening>, n: nat)
    requires
        wide_opening(o, n) is None,
    ensures
        forall|r: int| 0 <= r < n ==> (#[trigger] o[r]).log_arity == 1,
    decreases n,
{
    if n > 0 {
        lemma_narrow(o, (n - 1) as nat);
    }
}

/// A witness that was made has no salt of another length.
proof fn lemma_salts(q: QueryProof, w: HidingWitness, index: int)
    requires
        witness_is(w, q, index),
    ensures
        !bad_salts(q),
{
    let quot = q.input_proof@[2].salts@;
    let commits = q.commit_phase_openings@;
    assert(w.trace_salt@.len() == 4);
    assert(w.random_salt@.len() == 4);
    assert forall|i: int| 0 <= i < quot.len() implies (#[trigger] quot[i]).len() == 4 by {
        assert(w.quot_salts@[i]@.len() == 4);
    }
    assert forall|i: int| 0 <= i < commits.len() implies (#[trigger] commits[i]).salts@[0].len()
        == 4 by {
        assert(w.commit_salts@[i]@.len() == 4);
    }
}

/// The terms of a proof's first query.
pub open spec fn first_terms(p: PlainProof, coms: Seq<OpenedBatch>) -> nat {
    query_terms_z(p.fri.query_proofs@[0].input_proof@, coms).len()
}

/// What the first `n` queries are refused for. They all have the number of terms of the first.
pub open spec fn window_queries_fail(
    p: PlainProof,
    coms: Seq<OpenedBatch>,
    felts: Seq<u64>,
    log_blowup: int,
    n: nat,
) -> Option<AggregationError>
    decreases n,
{
    if n == 0 {
        None
    } else {
        match window_queries_fail(p, coms, felts, log_blowup, (n - 1) as nat) {
            Some(e) => Some(e),
            None => window_query_fail(
                p.fri.query_proofs@[n - 1],
                coms,
                first_terms(p, coms),
                felts[n - 1] as int,
                log_blowup,
            ),
        }
    }
}

proof fn lemma_window_queries(
    p: PlainProof,
    coms: Seq<OpenedBatch>,
    felts: Seq<u64>,
    log_blowup: int,
    k: nat,
    n: nat,
)
    requires
        k <= n,
        window_queries_fail(p, coms, felts, log_blowup, k) is Some,
    ensures
        window_queries_fail(p, coms, felts, log_blowup, n) == window_queries_fail(
            p,
            coms,
            felts,
            log_blowup,
            k,
        ),
    decreases n - k,
{
    if k < n {
        lemma_window_queries(p, coms, felts, log_blowup, k, (n - 1) as nat);
    }
}

proof fn lemma_narrow_query(q: Seq<QueryProof>, n: nat, k: int)
    requires
        wide_query(q, n) is None,
        0 <= k < n,
    ensures
        wide_opening(q[k].commit_phase_openings@, q[k].commit_phase_openings@.len()) is None,
    decreases n,
{
    if k < n - 1 {
        lemma_narrow_query(q, (n - 1) as nat, k);
    }
}

/// The window that a replayed proof shows, whether it is to hide or not.
pub open spec fn shown(p: PlainProof, w: WindowInputs, r: Replay, hiding: bool) -> Seq<int> {
    window_z(
        p,
        views(r.challenges@),
        ints(r.index_felts@),
        p.fri.final_poly@[0]@,
        ints(w.public_values@),
        views(w.periodic@),
        views(w.weights@),
        hiding,
    )
}

/// What a window is refused for, once its transcript is replayed.
pub open spec fn window_fail(
    p: PlainProof,
    w: WindowInputs,
    s: WindowShape,
    r: Replay,
) -> Option<AggregationError> {
    let n = p.fri.query_proofs@.len();
    let wide = wide_query(p.fri.query_proofs@, n);
    let segment = estimate_z(
        "hiding inner monolith query segment",
        s.m_period,
        s.fused_w,
        s.limit_felts,
    );
    if wide is Some {
        Some(AggregationError::UnsupportedFriArity { log_arity: wide->0 as usize })
    } else if s.num_quotient_chunks > BLOWUP {
        Some(AggregationError::TraceLayout(LayoutFault::QuotientChunkCount))
    } else if segment is Err {
        Some(segment->Err_0)
    } else if !segment->Ok_0.within_limit {
        Some(over_limit("hiding inner monolith query segment", segment->Ok_0))
    } else {
        match window_queries_fail(p, w.coms@, r.index_felts@, s.log_blowup as int, n) {
            Some(e) => Some(e),
            None => if p.random_cap is None {
                Some(AggregationError::NonHidingInnerProof)
            } else if shown(p, w, r, true).len() != s.pis_count {
                Some(AggregationError::TraceLayout(LayoutFault::PublicInputs))
            } else {
                None
            },
        }
    }
}

/// The fold challenges of a replay.
pub open spec fn betas_z(r: Replay) -> Seq<Challenge> {
    r.challenges@.skip(3)
}

/// The fold challenges: those behind the first three.
fn fold_betas(challenges: &Vec<Challenge>) -> (r: Vec<Challenge>)
    requires
        challenges.len() >= 3,
    ensures
        r@ == challenges@.skip(3),
{
    let n: usize = challenges.len() - 3;
    let mut betas: Vec<Challenge> = Vec::new();
    for i in 0..n
        invariant
            n + 3 == challenges.len(),
            betas@ == challenges@.skip(3).take(i as int),
    {
        betas.push(challenges[i + 3]);
        assert(betas@ =~= challenges@.skip(3).take(i + 1));
    }
    assert(betas@ =~= challenges@.skip(3));
    betas
}

/// Builds the window of a hiding inner proof.
pub fn build_symbolic_hiding_inner_window_source(
    p: &PlainProof,
    w: &WindowInputs,
    s: &WindowShape,
) -> (r: Result<SymbolicHidingInnerWindow, AggregationError>)
    requires
        window_ready(*p, s.log_blowup as int),
        s.fold_chunk > 0,
    ensures
        exists|replay: Replay|
            {
                &&& #[trigger] replay.of(
                    hiding_script(*p, w.base_degree_bits as int, ints(w.public_values@)),
                )
                &&& match r {
                    Err(e) => window_fail(*p, *w, *s, replay) == Some(e),
                    Ok(v) => {
                        &&& window_fail(*p, *w, *s, replay) is None
                        &&& v.replay == replay
                        &&& v.queries.len() == p.fri.query_proofs.len()
                        &&& forall|q: int|
                            #![trigger v.queries@[q]]
                            0 <= q < v.queries.len() ==> window_query_is(
                                v.queries@[q],
                                p.fri.query_proofs@[q],
                                w.coms@,
                                replay.index_felts@[q] as int,
                                replay.challenges@[2],
                                betas_z(replay),
                                s.log_blowup as int,
                            )
                        &&& ints(v.pub_window@) == shown(*p, *w, replay, true)
                        &&& ints(v.selector_window@) == selectors_z(
                            w.is_first@,
                            w.is_last@,
                            w.inv_van@,
                            views(w.constraints@),
                            replay.challenges@[0]@,
                            s.fold_chunk as int,
                        )
                        &&& v.folded@ == folded_z(
                            views(w.constraints@),
                            replay.challenges@[0]@,
                            w.constraints@.len(),
                        )
                        &&& v.n_terms == first_terms(*p, w.coms@)
                    },
                }
            },
{
    let replay: Replay = sim_full_hiding(p, w.base_degree_bits, w.public_values.as_slice());
    let ghost played = hiding_script(*p, w.base_degree_bits as int, ints(w.public_values@));
    assert(replay.of(played));
    match validate_binary_fri_shape(&p.fri) {
        Err(e) => {
            return Err(e);
        },
        Ok(()) => {},
    }
    if s.num_quotient_chunks > BLOWUP {
        return Err(AggregationError::TraceLayout(LayoutFault::QuotientChunkCount));
    }
    match checked_trace_felts_with_limit(
        "hiding inner monolith query segment",
        s.m_period,
        s.fused_w,
        s.limit_felts,
    ) {
        Err(e) => {
            return Err(e);
        },
        Ok(_) => {},
    }
    let alpha: Challenge = replay.challenges[2];
    let betas: Vec<Challenge> = fold_betas(&replay.challenges);
    let n: usize = p.fri.query_proofs.len();
    let n_terms: usize = query_terms(&p.fri.query_proofs[0].input_proof, &w.coms).len();
    let mut queries: Vec<WindowQuery> = Vec::new();
    for q in 0..n
        invariant
            n == p.fri.query_proofs.len(),
            n == replay.index_felts.len(),
            betas.len() == p.fri.commit_phase_commits.len(),
            betas@ == betas_z(replay),
            alpha == replay.challenges@[2],
            replay.of(played),
            played == hiding_script(*p, w.base_degree_bits as int, ints(w.public_values@)),
            window_ready(*p, s.log_blowup as int),
            n_terms == first_terms(*p, w.coms@),
            wide_query(p.fri.query_proofs@, n as nat) is None,
            window_fail(*p, *w, *s, replay) == (match window_queries_fail(
                *p,
                w.coms@,
                replay.index_felts@,
                s.log_blowup as int,
                n as nat,
            ) {
                Some(e) => Some(e),
                None => if p.random_cap is None {
                    Some(AggregationError::NonHidingInnerProof)
                } else if shown(*p, *w, replay, true).len() != s.pis_count {
                    Some(AggregationError::TraceLayout(LayoutFault::PublicInputs))
                } else {
                    None
                },
            }),
            window_queries_fail(
                *p,
                w.coms@,
                replay.index_felts@,
                s.log_blowup as int,
                q as nat,
            ) is None,
            queries.len() == q,
            forall|k: int|
                #![trigger queries@[k]]
                0 <= k < q ==> window_query_is(
                    queries@[k],
                    p.fri.query_proofs@[k],
                    w.coms@,
                    replay.index_felts@[k] as int,
                    alpha,
                    betas@,
                    s.log_blowup as int,
                ),
    {
        proof {
            lemma_narrow_query(p.fri.query_proofs@, n as nat, q as int);
            assert(query_ready(
                p.fri.query_proofs@[q as int],
                s.log_blowup as int,
                betas.len() as int,
            ));
        }
        match window_query(
            &p.fri.query_proofs[q],
            &w.coms,
            n_terms,
            replay.index_felts[q],
            alpha,
            &betas,
            s.log_blowup,
        ) {
            Err(e) => {
                proof {
                    lemma_window_queries(
                        *p,
                        w.coms@,
                        replay.index_felts@,
                        s.log_blowup as int,
                        (q + 1) as nat,
                        n as nat,
                    );
                    assert(replay.of(played));
                }
                return Err(e);
            },
            Ok(v) => {
                queries.push(v);
            },
        }
    }
    if p.random_cap.is_none() {
        assert(replay.of(played));
        return Err(AggregationError::NonHidingInnerProof);
    }
    let pub_window: Vec<u64> = public_window(
        p,
        &replay.challenges,
        &replay.index_felts,
        p.fri.final_poly[0],
        &w.public_values,
        &w.periodic,
        &w.weights,
        true,
    );
    assert(ints(pub_window@).len() == pub_window.len());
    if pub_window.len() != s.pis_count {
        assert(replay.of(played));
        return Err(AggregationError::TraceLayout(LayoutFault::PublicInputs));
    }
    let (selectors, folded) = selector_window(
        w.is_first,
        w.is_last,
        w.inv_van,
        &w.constraints,
        replay.challenges[0],
        s.fold_chunk,
    );
    assert(replay.of(played));
    Ok(
        SymbolicHidingInnerWindow {
            replay,
            queries,
            pub_window,
            selector_window: selectors,
            folded,
            n_terms,
        },
    )
}

/// The window of an inner proof that hides nothing.
#[derive(Debug)]
pub struct SymbolicInnerWindow {
    pub replay: Replay,
    pub queries: Vec<TileOpenings>,
    pub pub_window: Vec<u64>,
    pub selector_window: Vec<u64>,
    pub folded: Challenge,
    pub n_terms: usize,
}

/// The proof has what its window reads: a query, and in every query a trace and a quotient round, pairs,
/// no more folds than there are commitments, a height that the field has, and a quotient path that is no
/// longer than the trace has levels.
pub open spec fn plain_ready(
    p: PlainProof,
    log_blowup: int,
    cap_height: int,
) -> bool {
    &&& p.fri.query_proofs.len() > 0
    &&& p.fri.final_poly.len() > 0
    &&& forall|q: int|
        0 <= q < p.fri.query_proofs.len() ==> plain_query_ready(
            #[trigger] p.fri.query_proofs@[q],
            log_blowup,
            cap_height,
            p.fri.commit_phase_commits.len() as int,
        )
}

pub open spec fn plain_query_ready(
    q: QueryProof,
    log_blowup: int,
    cap_height: int,
    commits: int,
) -> bool {
    &&& q.input_proof.len() >= 2
    &&& query_fits(q, log_blowup, commits)
    &&& binary(q.commit_phase_openings@)
    &&& quotient_shift(q, log_blowup, cap_height) >= 0
}

/// How many levels lower than the trace the quotient is committed.
pub open spec fn quotient_shift(q: QueryProof, log_blowup: int, cap_height: int) -> int {
    query_height(q, log_blowup) - cap_height - q.input_proof@[1].path.len()
}

/// No opening point is the query point of one of the first `n` queries.
pub open spec fn queries_apart(
    p: PlainProof,
    coms: Seq<OpenedBatch>,
    felts: Seq<u64>,
    log_blowup: int,
    n: int,
) -> bool {
    forall|q: int|
        #![trigger p.fri.query_proofs@[q]]
        0 <= q < n ==> query_apart(p.fri.query_proofs@[q], coms, felts[q] as int, log_blowup)
}

/// Builds the window of an inner proof that hides nothing; `None` where an opening point is the query
/// point of a query, or where the window shows another number of values than the region has columns
/// for.
pub fn build_symbolic_inner_window(
    p: &PlainProof,
    w: &WindowInputs,
    s: &WindowShape,
    cap_height: usize,
) -> (r: Option<SymbolicInnerWindow>)
    requires
        plain_ready(*p, s.log_blowup as int, cap_height as int),
        s.fold_chunk > 0,
    ensures
        exists|replay: Replay|
            {
                &&& #[trigger] replay.of(
                    script(*p, w.base_degree_bits as int, ints(w.public_values@)),
                )
                &&& r is Some <==> {
                    &&& queries_apart(
                        *p,
                        w.coms@,
                        replay.index_felts@,
                        s.log_blowup as int,
                        p.fri.query_proofs.len() as int,
                    )
                    &&& shown(*p, *w, replay, false).len() == s.pis_count
                }
                &&& r matches Some(v) ==> {
                    &&& v.replay == replay
                    &&& v.queries.len() == p.fri.query_proofs.len()
                    &&& forall|q: int|
                        #![trigger v.queries@[q]]
                        0 <= q < v.queries.len() ==> tile_is(
                            v.queries@[q],
                            p.fri.query_proofs@[q],
                            w.coms@,
                            replay.index_felts@[q] as int,
                            replay.challenges@[2],
                            betas_z(replay),
                            s.log_blowup as int,
                            0,
                            1,
                            quotient_shift(
                                p.fri.query_proofs@[q],
                                s.log_blowup as int,
                                cap_height as int,
                            ) as nat,
                        )
                    &&& ints(v.pub_window@) == shown(*p, *w, replay, false)
                    &&& ints(v.selector_window@) == selectors_z(
                        w.is_first@,
                        w.is_last@,
                        w.inv_van@,
                        views(w.constraints@),
                        replay.challenges@[0]@,
                        s.fold_chunk as int,
                    )
                    &&& v.folded@ == folded_z(
                        views(w.constraints@),
                        replay.challenges@[0]@,
                        w.constraints@.len(),
                    )
                    &&& v.n_terms == v.queries@.last().query.terms.len()
                }
            },
{
    let replay: Replay = sim_full(p, w.base_degree_bits, w.public_values.as_slice());
    let ghost played = script(*p, w.base_degree_bits as int, ints(w.public_values@));
    assert(replay.of(played));
    let alpha: Challenge = replay.challenges[2];
    let betas: Vec<Challenge> = fold_betas(&replay.challenges);
    let n: usize = p.fri.query_proofs.len();
    let mut queries: Vec<TileOpenings> = Vec::new();
    for q in 0..n
        invariant
            n == p.fri.query_proofs.len(),
            n == replay.index_felts.len(),
            betas.len() == p.fri.commit_phase_commits.len(),
            betas@ == betas_z(replay),
            alpha == replay.challenges@[2],
            replay.of(played),
            played == script(*p, w.base_degree_bits as int, ints(w.public_values@)),
            plain_ready(*p, s.log_blowup as int, cap_height as int),
            queries_apart(*p, w.coms@, replay.index_felts@, s.log_blowup as int, q as int),
            queries.len() == q,
            forall|k: int|
                #![trigger queries@[k]]
                0 <= k < q ==> tile_is(
                    queries@[k],
                    p.fri.query_proofs@[k],
                    w.coms@,
                    replay.index_felts@[k] as int,
                    alpha,
                    betas@,
                    s.log_blowup as int,
                    0,
                    1,
                    quotient_shift(
                        p.fri.query_proofs@[k],
                        s.log_blowup as int,
                        cap_height as int,
                    ) as nat,
                ),
    {
        let proof_q: &QueryProof = &p.fri.query_proofs[q];
        assert(plain_query_ready(
            p.fri.query_proofs@[q as int],
            s.log_blowup as int,
            cap_height as int,
            betas.len() as int,
        ));
        let shift: usize = proof_q.commit_phase_openings.len() + s.log_blowup - cap_height
            - proof_q.input_proof[1].path.len();
        match query_tile(
            proof_q,
            &w.coms,
            query_terms(&proof_q.input_proof, &w.coms),
            replay.index_felts[q],
            alpha,
            &betas,
            s.log_blowup,
            0,
            1,
            shift,
        ) {
            None => {
                assert(!query_apart(
                    p.fri.query_proofs@[q as int],
                    w.coms@,
                    replay.index_felts@[q as int] as int,
                    s.log_blowup as int,
                ));
                assert(replay.of(played));
                return None;
            },
            Some(t) => {
                queries.push(t);
            },
        }
    }
    let pub_window: Vec<u64> = public_window(
        p,
        &replay.challenges,
        &replay.index_felts,
        p.fri.final_poly[0],
        &w.public_values,
        &w.periodic,
        &w.weights,
        false,
    );
    assert(ints(pub_window@).len() == pub_window.len());
    if pub_window.len() != s.pis_count {
        assert(replay.of(played));
        return None;
    }
    let (selectors, folded) = selector_window(
        w.is_first,
        w.is_last,
        w.inv_van,
        &w.constraints,
        replay.challenges[0],
        s.fold_chunk,
    );
    let n_terms: usize = queries[n - 1].query.terms.len();
    assert(replay.of(played));
    Some(
        SymbolicInnerWindow {
            replay,
            queries,
            pub_window,
            selector_window: selectors,
            folded,
            n_terms,
        },
    )
}

} // verus!
