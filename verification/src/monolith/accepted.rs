//! A proof that is accepted gives what an honest trace of the fused system is laid out from.
use super::cells::{
    bare_chain_cells, fold_cells, head_cells, off_points, point_z, rounds_ok, running, terms_cells,
    FoldRound, Query, Term,
};
use super::fused::{epilogue_z, MonolithAir};
use super::fused_complete::{law_monolith_complete, m_honest, m_query};
use super::fused_laws::{m_transcript, points_hold, seg_pub};
use super::fused_trace::{seg_depth, TileOpenings};
use super::merkle_tile::{leaf_digest, leaf_state};
use super::phase4a::Phase4AAir;
use super::phase4a_complete::{law_phase4a_complete, p4_honest, p4_query};
use super::query::opening_of;
use super::sponge::{bound, follows, ft_inputs, inputs_ok, FullTranscriptAir};
use super::query_tile::{lemma_terms_at, lemma_terms_len};
use super::super_tile::arith_row;
use crate::aggregate::source::{query_height, tile_is};
use crate::bits::{bit_of, rev_z, shr_z};
use crate::challenger::{
    after_ext, observed_all, observed_exts, sampled, sampled_ext, views, Duplex,
};
use crate::cols::is_pow2;
use crate::epilogue::{const_outcome, const_rounds};
use crate::epilogue_laws::{const_rest, law_const_rest};
use crate::expr::{pair, satisfied, Env};
use crate::field::{
    cong, econg, ered, finv_z, generators, ints, lemma_ered, lemma_red_red, lemma_red_small, red,
    two_adic_gen, zmul, zscale, Challenge, P, W_EXT,
};
use crate::fri_input::{
    batch_fail, batch_index, batches_fail, deep_point, dims_z, highest, input_fail, listed,
    log_height_of, mat_terms, mats_fail, mats_reach, point_terms, points_fail, reached, OpenedBatch,
};
use crate::fri_query::{fold_run, fold_step, group_z, CommitStep, Fold, FriParams};
use crate::fri_verify::{
    after_witness, fri_run, proof_height, queries_run, query_fail, query_steps, round_count,
    rounds_run,
};
use crate::merkle::{root_of, Digest};
use crate::mmcs::{
    all_high, flattened, group_accepts, index_path, joined, merkle_accepts, overwritten, path_len,
    reduced, row_hash, row_state, rows_z, widths_of,
};
use crate::native_fri::poly_at;
use crate::plain_proof::{
    arities_z, cap_z, BatchOpening, CommitOpening, FriProof, PlainProof, QueryProof,
};
use crate::point_laws::law_deep_point_native;
use crate::prime::law_no_zero_divisors;
use crate::query_data::{
    binary, fold_point, groups_are, law_one_height, law_query_folds, law_rows_fit, lemma_pow_nonzero,
    mats_flat, pair_felts, rounds_of, rows_fit, steps_of, terms_flat,
};
use crate::replay::{
    at_challenge, at_index, law_replay_bound, script, script_ok, starts_with, Replay,
};
use crate::replay_laws::law_replay_agrees;
use crate::stark::{
    all_caps_ok, before_zeta, lemma_rounds_height, observed_coms, opened_once, quotient_mats,
    rounds_are, rounds_fail, OpeningRounds,
};
use crate::transcript::states;
use vstd::arithmetic::power2::{lemma2_to64, pow2};
use vstd::prelude::*;

verus! {

/// The parameters of the low-degree test that the fused system has the geometry of.
pub open spec fn fused_params(params: FriParams) -> bool {
    &&& params.log_blowup == 4
    &&& params.log_final_poly_len == 0
    &&& params.max_log_arity == 1
    &&& params.commit_pow_bits == 0
    &&& params.query_pow_bits > 0
    &&& params.cap_height == 6
}

/// A proof of the constant column of the size that the fused system has the geometry of.
pub open spec fn fused_shape(p: PlainProof) -> bool {
    &&& p.degree_bits == 6
    &&& p.trace_local.len() == 1
    &&& p.trace_next is Some
    &&& p.trace_next->0.len() == 1
    &&& p.quotient_chunks.len() == 1
    &&& p.quotient_chunks@[0].len() == 2
    &&& p.fri.commit_phase_commits.len() == 6
    &&& p.fri.commit_pow_witnesses.len() >= 6
}

/// The terms of a query: the trace at both points, the two coordinates of the quotient.
spec fn four_terms(p: PlainProof, zeta: Challenge, zeta_next: Challenge, q: QueryProof) -> Seq<Term> {
    let a = q.input_proof@[0].opened_values@[0]@;
    let b = q.input_proof@[1].opened_values@[0]@;
    seq![
        Term { z: zeta, pz: p.trace_local@[0], px: a[0] },
        Term { z: zeta_next, pz: p.trace_next->0@[0], px: a[0] },
        Term { z: zeta, pz: p.quotient_chunks@[0]@[0], px: b[0] },
        Term { z: zeta, pz: p.quotient_chunks@[0]@[1], px: b[1] },
    ]
}

proof fn lemma_four_terms(
    coms: Seq<OpenedBatch>,
    p: PlainProof,
    zeta: Challenge,
    zeta_next: Challenge,
    q: QueryProof,
)
    requires
        fused_shape(p),
        rounds_are(coms, p, zeta, zeta_next, true, 1, false),
    ensures
        coms.len() == 2,
        terms_flat(q.input_proof@, coms, 2) == four_terms(p, zeta, zeta_next, q),
{
    let (ra, rb) = (q.input_proof@[0].opened_values@, q.input_proof@[1].opened_values@);
    let (a, b) = (ra[0]@, rb[0]@);
    let (ma, mb) = (coms[0].mats@, coms[1].mats@);
    let (pa, pb) = (ma[0].points@, mb[0].points@);
    assert(opened_once(quotient_mats(coms, p, false)[0], 6, zeta, p.quotient_chunks@[0]@));
    reveal_with_fuel(terms_flat, 3);
    reveal_with_fuel(mats_flat, 2);
    reveal_with_fuel(mat_terms, 3);
    let x = point_terms(a, zeta, p.trace_local@);
    let y = point_terms(a, zeta_next, p.trace_next->0@);
    let z = point_terms(b, zeta, p.quotient_chunks@[0]@);
    assert(mat_terms(a, pa, 2) =~= x + y);
    assert(mat_terms(b, pb, 1) =~= z);
    assert(mats_flat(ra, ma, 1) =~= x + y);
    assert(mats_flat(rb, mb, 1) =~= z);
    assert(terms_flat(q.input_proof@, coms, 1) =~= x + y);
    assert(terms_flat(q.input_proof@, coms, 2) =~= x + y + z);
    assert(x + y + z =~= four_terms(p, zeta, zeta_next, q));
}

/// All matrices have the height of the low-degree test.
proof fn lemma_one_height(
    coms: Seq<OpenedBatch>,
    p: PlainProof,
    zeta: Challenge,
    zeta_next: Challenge,
)
    requires
        fused_shape(p),
        rounds_are(coms, p, zeta, zeta_next, true, 1, false),
    ensures
        coms.len() == 2,
        coms[0].mats.len() == 1,
        coms[1].mats.len() == 1,
        coms[0].mats@[0].log_size == 6,
        coms[1].mats@[0].log_size == 6,
        forall|i: int, j: int|
            #![trigger coms[i].mats@[j]]
            0 <= i < coms.len() && 0 <= j < coms[i].mats.len() ==> log_height_of(
                coms[i].mats@[j],
                4,
            ) == 10,
        forall|h: int| #[trigger] reached(coms, 4, h, 2) <==> h == 10,
{
    assert(opened_once(quotient_mats(coms, p, false)[0], 6, zeta, p.quotient_chunks@[0]@));
    assert(coms[1].mats@[0] == quotient_mats(coms, p, false)[0]);
    assert forall|i: int, j: int|
        #![trigger coms[i].mats@[j]]
        0 <= i < coms.len() && 0 <= j < coms[i].mats.len() implies log_height_of(
        coms[i].mats@[j],
        4,
    ) == 10 by {
        assert(j == 0);
        assert(i == 0 || i == 1);
    }
    assert forall|h: int| #[trigger] reached(coms, 4, h, 2) <==> h == 10 by {
        assert(log_height_of(coms[0].mats@[0], 4) == 10);
        if h == 10 {
            assert(mats_reach(coms[0].mats@, 4, h, coms[0].mats@.len()));
        }
        if reached(coms, 4, h, 2) {
            let i = choose|i: int|
                0 <= i < 2 && #[trigger] mats_reach(coms[i].mats@, 4, h, coms[i].mats@.len());
            let j = choose|j: int|
                0 <= j < coms[i].mats@.len() && log_height_of(#[trigger] coms[i].mats@[j], 4) == h;
            assert(log_height_of(coms[i].mats@[j], 4) == 10);
        }
    }
}

/// There is one reduced opening, at the height of the test.
proof fn lemma_listed(
    proofs: Seq<BatchOpening>,
    coms: Seq<OpenedBatch>,
    index: int,
    alpha: (int, int),
    n: nat,
)
    requires
        n >= 1,
        coms.len() == 2,
        forall|i: int, j: int|
            #![trigger coms[i].mats@[j]]
            0 <= i < coms.len() && 0 <= j < coms[i].mats.len() ==> log_height_of(
                coms[i].mats@[j],
                4,
            ) == 10,
        forall|h: int| #[trigger] reached(coms, 4, h, 2) <==> h == 10,
    ensures
        listed(proofs, coms, 4, index, 10, alpha, n) == seq![
            (
                10int,
                opening_of(terms_flat(proofs, coms, 2), deep_point(index, 10, 10), alpha),
            ),
        ],
    decreases n,
{
    law_one_height(proofs, coms, 4, 10, 2);
    assert(reached(coms, 4, 10 - (n - 1), 2) <==> n == 1);
    if n > 1 {
        lemma_listed(proofs, coms, index, alpha, (n - 1) as nat);
    } else {
        assert(listed(proofs, coms, 4, index, 10, alpha, 0) =~= seq![]);
    }
}

/// A row that is opened at an index leads to the entry of a cap.
spec fn leads(row: Seq<int>, path: Seq<Digest>, index: int, cap: Seq<Digest>) -> bool {
    let at = shr_z(index, path.len());
    &&& at < cap.len()
    &&& reduced(cap[at]) == root_of(row_hash(row), index_path(path, index))
}

/// A batch of one matrix that passes is opened at the index.
proof fn lemma_batch(opening: BatchOpening, com: OpenedBatch, params: FriParams, index: int)
    requires
        fused_params(params),
        0 <= index < 1024,
        com.mats.len() == 1,
        com.mats@[0].log_size == 6,
        batch_fail(opening, com, params, index, 10) is None,
    ensures
        opening.opened_values.len() == 1,
        opening.path.len() == 4,
        leads(ints(opening.opened_values@[0]@), opening.path@, index, com.cap@),
        com.mats@[0].points.len() > 0,
        points_fail(
            opening.opened_values@[0]@,
            com.mats@[0].points@,
            deep_point(index, 10, 10),
            com.mats@[0].points@.len(),
        ) is None,
{
    lemma2_to64();
    let mats = com.mats@;
    let rows = rows_z(opening.opened_values@);
    let dims = dims_z(mats, 4);
    reveal_with_fuel(highest, 2);
    reveal_with_fuel(mats_fail, 2);
    reveal_with_fuel(joined, 2);
    assert(mats[0].points.len() > 0);
    assert(batch_index(mats, 4, index, 10) == index);
    assert(all_high(dims, 10));
    assert(merkle_accepts(6, com.cap@, widths_of(dims), 10, index, rows, opening.path@));
    assert(joined(rows, 1) =~= ints(opening.opened_values@[0]@));
}

/// The inputs of a query that pass.
proof fn lemma_inputs(
    coms: Seq<OpenedBatch>,
    p: PlainProof,
    zeta: Challenge,
    zeta_next: Challenge,
    q: QueryProof,
    params: FriParams,
    index: int,
    alpha: (int, int),
)
    requires
        fused_shape(p),
        fused_params(params),
        rounds_are(coms, p, zeta, zeta_next, true, 1, false),
        0 <= index < 1024,
        input_fail(q.input_proof@, coms, params, index, 10, alpha) is None,
    ensures
        q.input_proof.len() == 2,
        q.input_proof@[0].path.len() == 4,
        q.input_proof@[1].path.len() == 4,
        q.input_proof@[0].opened_values@[0].len() == 1,
        q.input_proof@[1].opened_values@[0].len() == 2,
        leads(
            ints(q.input_proof@[0].opened_values@[0]@),
            q.input_proof@[0].path@,
            index,
            p.trace_cap@,
        ),
        leads(
            ints(q.input_proof@[1].opened_values@[0]@),
            q.input_proof@[1].path@,
            index,
            p.quotient_cap@,
        ),
        off_points(four_terms(p, zeta, zeta_next, q), point_z(index, 10)),
        rows_fit(q.input_proof@, coms),
{
    lemma_one_height(coms, p, zeta, zeta_next);
    let proofs = q.input_proof@;
    reveal_with_fuel(batches_fail, 3);
    assert(batches_fail(proofs, coms, params, index, 10, 2) is None);
    assert(batch_fail(proofs[0], coms[0], params, index, 10) is None);
    assert(batch_fail(proofs[1], coms[1], params, index, 10) is None);
    lemma_batch(proofs[0], coms[0], params, index);
    lemma_batch(proofs[1], coms[1], params, index);
    assert(opened_once(quotient_mats(coms, p, false)[0], 6, zeta, p.quotient_chunks@[0]@));
    assert(coms[1].mats@[0] == quotient_mats(coms, p, false)[0]);
    reveal_with_fuel(points_fail, 3);
    law_deep_point_native(index, 10);
    assert(deep_point(index, 10, 10) == point_z(index, 10)) by {
        assert(shr_z(index, 0) == index);
    }
    assert forall|i: int, j: int, k: int|
        #![trigger coms[i].mats@[j].points@[k]]
        0 <= i < coms.len() && 0 <= j < coms[i].mats.len() && 0 <= k
            < coms[i].mats@[j].points.len() implies coms[i].mats@[j].points@[k].1.len()
        == proofs[i].opened_values@[j].len() by {
        assert(i == 0 || i == 1);
        assert(j == 0);
        assert(k == 0 || k == 1);
    }
}

/// A fold that does not fail did not fail before.
proof fn lemma_not_failed(
    start: Fold,
    params: FriParams,
    steps: Seq<CommitStep>,
    ros: Seq<(int, (int, int))>,
    k: nat,
    n: nat,
)
    requires
        k <= n,
        fold_run(start, params, steps, ros, n).fail is None,
    ensures
        fold_run(start, params, steps, ros, k).fail is None,
    decreases n,
{
    if k < n {
        lemma_not_failed(start, params, steps, ros, k, (n - 1) as nat);
    }
}

/// The steps of the rounds of a query, with the caps of the rounds.
spec fn steps_at(
    steps: Seq<CommitStep>,
    openings: Seq<CommitOpening>,
    commits: Seq<Vec<Digest>>,
    betas: Seq<Challenge>,
) -> bool {
    &&& openings.len() == 6
    &&& steps_of(steps, openings, betas)
    &&& forall|r: int| 0 <= r < 6 ==> *(#[trigger] steps[r]).commit == commits[r]
}

/// A fold from the height of the test on, behind `n` rounds.
spec fn folds(
    index: int,
    params: FriParams,
    steps: Seq<CommitStep>,
    ro: (int, int),
    n: nat,
) -> Fold {
    fold_run(
        Fold { index, eval: ro, log_height: 10, taken: 1, fail: None },
        params,
        steps,
        seq![(10int, ro)],
        n,
    )
}

/// A round that passes folds a pair.
proof fn lemma_pairs(
    index: int,
    params: FriParams,
    steps: Seq<CommitStep>,
    ro: (int, int),
    openings: Seq<CommitOpening>,
    commits: Seq<Vec<Digest>>,
    betas: Seq<Challenge>,
)
    requires
        fused_params(params),
        steps_at(steps, openings, commits, betas),
        folds(index, params, steps, ro, 6).fail is None,
    ensures
        binary(openings),
{
    lemma2_to64();
    let start = Fold { index, eval: ro, log_height: 10, taken: 1, fail: None };
    let ros = seq![(10int, ro)];
    assert forall|r: int|
        #![trigger openings[r]]
        0 <= r < openings.len() implies openings[r].log_arity == 1
        && openings[r].sibling_values.len() == 1 by {
        lemma_not_failed(start, params, steps, ros, r as nat, 6);
        lemma_not_failed(start, params, steps, ros, (r + 1) as nat, 6);
        let step = steps[r];
        assert(*step.opening == openings[r]);
        let f = fold_run(start, params, steps, ros, r as nat);
        assert(fold_step(f, params, r, step, ros).fail is None);
        assert(views(step.opening.sibling_values@).len() == step.opening.sibling_values.len());
    }
}

/// A round that passes on a pair.
proof fn lemma_pair_step(
    f: Fold,
    params: FriParams,
    round: int,
    step: CommitStep,
    ros: Seq<(int, (int, int))>,
)
    requires
        fused_params(params),
        f.fail is None,
        step.opening.log_arity == 1,
        fold_step(f, params, round, step, ros).fail is None,
    ensures
        group_accepts(
            6,
            step.commit@,
            (f.log_height - 1) as nat,
            shr_z(f.index, 1),
            group_z(f.eval, views(step.opening.sibling_values@), f.index % 2),
            step.opening.path@,
        ),
{
    lemma2_to64();
}

/// The pair of a round leads to the entry of its cap.
proof fn lemma_pair_leads(
    e: (int, int),
    rd: FoldRound,
    at: int,
    low: nat,
    o: CommitOpening,
    cap: Seq<Digest>,
)
    requires
        o.sibling_values.len() == 1,
        rd.sib == o.sibling_values@[0],
        rd.bit == (at % 2 == 1),
        group_accepts(
            6,
            cap,
            low,
            shr_z(at, 1),
            group_z(e, views(o.sibling_values@), at % 2),
            o.path@,
        ),
    ensures
        o.path.len() == path_len(low, 6),
        leads(pair_felts(e, rd), o.path@, shr_z(at, 1), cap),
{
    let sib = views(o.sibling_values@);
    let group = group_z(e, sib, at % 2);
    let flat = flattened(group);
    assert(sib =~= seq![rd.sib@]);
    assert(group.len() == 2);
    assert(flat =~= pair_felts(e, rd));
    reveal_with_fuel(joined, 2);
    assert(joined(seq![flat], 1) =~= flat);
}

/// The rounds of a fold that passes: the pair of each leads to the entry of its cap.
proof fn lemma_round_leads(
    index: int,
    params: FriParams,
    steps: Seq<CommitStep>,
    ro: (int, int),
    openings: Seq<CommitOpening>,
    commits: Seq<Vec<Digest>>,
    betas: Seq<Challenge>,
    rounds: Seq<FoldRound>,
    r: int,
)
    requires
        generators(),
        fused_params(params),
        0 <= index,
        steps_at(steps, openings, commits, betas),
        rounds_of(rounds, openings, betas, index, 10),
        binary(openings),
        0 <= r < 6,
        folds(index, params, steps, ro, 6).fail is None,
    ensures
        openings[r].path.len() == path_len((9 - r) as nat, 6),
        leads(
            pair_felts(running(ro, rounds, r as nat), rounds[r]),
            openings[r].path@,
            shr_z(index, (r + 1) as nat),
            commits[r]@,
        ),
{
    let start = Fold { index, eval: ro, log_height: 10, taken: 1, fail: None };
    let ros = seq![(10int, ro)];
    lemma_not_failed(start, params, steps, ros, r as nat, 6);
    lemma_not_failed(start, params, steps, ros, (r + 1) as nat, 6);
    law_query_folds(index, params, steps, ro, openings, betas, rounds, 10, r as nat);
    let f = fold_run(start, params, steps, ros, r as nat);
    let step = steps[r];
    assert(*step.opening == openings[r]);
    assert(*step.commit == commits[r]);
    assert(fold_step(f, params, r, step, ros).fail is None);
    lemma_pair_step(f, params, r, step, ros);
    let at = shr_z(index, r as nat);
    assert(shr_z(at, 1) == shr_z(index, (r + 1) as nat)) by {
        reveal_with_fuel(shr_z, 2);
    }
    assert(rounds[r].sib == openings[r].sibling_values@[0]);
    lemma_pair_leads(f.eval, rounds[r], at, (9 - r) as nat, openings[r], commits[r]@);
}

/// A row of at most four elements is hashed as a leaf is.
proof fn lemma_leaf(v: Seq<int>)
    requires
        1 <= v.len() <= 4,
    ensures
        leaf_digest(v) == row_hash(v),
{
    reveal_with_fuel(row_state, 2);
    assert(overwritten(row_state(v, 0), v, 0) =~= leaf_state(v));
    assert((v.len() + 3) / 4 == 1);
}

/// The entry of a cap that path `k` of a query leads to.
pub open spec fn entry_of(p: PlainProof, q: QueryProof, index: int, k: int) -> Digest {
    if k == 0 {
        p.trace_cap@[shr_z(index, q.input_proof@[0].path@.len())]
    } else if k == 1 {
        p.quotient_cap@[shr_z(index, q.input_proof@[1].path@.len())]
    } else {
        let at = shr_z(index, (k - 1) as nat);
        p.fri.commit_phase_commits@[k - 2]@[shr_z(at, q.commit_phase_openings@[k - 2].path@.len())]
    }
}

/// The openings of a query's tile, with the opened trace value.
pub open spec fn opened_tile(
    t: TileOpenings,
    q: QueryProof,
    coms: Seq<OpenedBatch>,
    felt: int,
    alpha: Challenge,
    betas: Seq<Challenge>,
) -> bool {
    &&& tile_is(TileOpenings { v: 0, ..t }, q, coms, felt, alpha, betas, 4, 0, 1, 0)
    &&& t.v == t.query.terms@[0].px
}

/// What is known of the tile of a query that passes.
spec fn passed(
    t: TileOpenings,
    p: PlainProof,
    q: QueryProof,
    zeta: Challenge,
    zeta_next: Challenge,
    index: int,
) -> bool {
    &&& t.query.terms@ == four_terms(p, zeta, zeta_next, q)
    &&& off_points(t.query.terms@, point_z(index, 10))
    &&& t.query.ro@ == opening_of(t.query.terms@, point_z(index, 10), t.query.alpha@)
    &&& ered(p.fri.final_poly@[0]@) == ered(running(t.query.ro@, t.query.rounds@, 6))
    &&& t.commits.len() == 6
    &&& forall|k: int|
        #![trigger t.path_at_z(k)]
        0 <= k < 8 ==> t.path_at_z(k).len() == seg_depth(k) && reduced(entry_of(p, q, index, k))
            == root_of(leaf_digest(t.leaf_z(k)), t.path_at_z(k))
}

/// The fold of a query that passes.
proof fn lemma_fold_passed(
    t: TileOpenings,
    p: PlainProof,
    q: QueryProof,
    params: FriParams,
    index: int,
    ro: (int, int),
    betas: Seq<Challenge>,
)
    requires
        generators(),
        fused_params(params),
        0 <= index,
        q.commit_phase_openings.len() == 6,
        betas.len() == 6,
        rounds_of(t.query.rounds@, q.commit_phase_openings@, betas, index, 10),
        t.query.ro@ == ro,
        groups_are(t.commits@, q.commit_phase_openings@, t.query.rounds@, ro, index),
        folds(index, params, query_steps(views(betas), p.fri, q), ro, 6).fail is None,
    ensures
        folds(index, params, query_steps(views(betas), p.fri, q), ro, 6).eval == running(
            ro,
            t.query.rounds@,
            6,
        ),
        t.commits.len() == 6,
        forall|k: int|
            #![trigger t.path_at_z(k)]
            2 <= k < 8 ==> t.path_at_z(k).len() == seg_depth(k) && reduced(
                entry_of(p, q, index, k),
            ) == root_of(leaf_digest(t.leaf_z(k)), t.path_at_z(k)),
{
    let openings = q.commit_phase_openings@;
    let commits = p.fri.commit_phase_commits@;
    let steps = query_steps(views(betas), p.fri, q);
    let rounds = t.query.rounds@;
    assert forall|r: int| 0 <= r < 6 implies steps[r].beta == betas[r] && *(#[trigger] steps[r]).commit
        == commits[r] && *steps[r].opening == openings[r] by {
        assert(views(betas)[r] == betas[r]@);
    }
    assert(steps_at(steps, openings, commits, betas));
    lemma_pairs(index, params, steps, ro, openings, commits, betas);
    law_query_folds(index, params, steps, ro, openings, betas, rounds, 10, 6);
    assert forall|k: int| #![trigger t.path_at_z(k)] 2 <= k < 8 implies t.path_at_z(k).len()
        == seg_depth(k) && reduced(entry_of(p, q, index, k)) == root_of(
        leaf_digest(t.leaf_z(k)),
        t.path_at_z(k),
    ) by {
        let r = k - 2;
        lemma_round_leads(index, params, steps, ro, openings, commits, betas, rounds, r);
        assert(ints(t.commits@[r].group@) == pair_felts(running(ro, rounds, r as nat), rounds[r]));
        assert(t.path_at_z(k) == index_path(openings[r].path@, shr_z(index, (r + 1) as nat)));
        lemma_leaf(t.leaf_z(k));
        assert(path_len((9 - r) as nat, 6) == seg_depth(k));
    }
}

/// A query that passes.
proof fn lemma_query_passed(
    t: TileOpenings,
    coms: Seq<OpenedBatch>,
    p: PlainProof,
    q: QueryProof,
    zeta: Challenge,
    zeta_next: Challenge,
    params: FriParams,
    felt: int,
    alpha: Challenge,
    betas: Seq<Challenge>,
)
    requires
        generators(),
        fused_shape(p),
        fused_params(params),
        rounds_are(coms, p, zeta, zeta_next, true, 1, false),
        p.fri.final_poly.len() == 1,
        q.commit_phase_openings.len() == 6,
        betas.len() == 6,
        0 <= felt,
        opened_tile(t, q, coms, felt, alpha, betas),
        query_fail(params, p.fri, coms, q, felt % 1024, alpha@, views(betas), 10) is None,
    ensures
        t.query.index == felt % 1024,
        t.query.alpha == alpha,
        rounds_of(t.query.rounds@, q.commit_phase_openings@, betas, felt % 1024, 10),
        groups_are(
            t.commits@,
            q.commit_phase_openings@,
            t.query.rounds@,
            t.query.ro@,
            felt % 1024,
        ),
        passed(t, p, q, zeta, zeta_next, felt % 1024),
{
    lemma2_to64();
    let index = felt % 1024;
    let proofs = q.input_proof@;
    let steps = query_steps(views(betas), p.fri, q);
    assert(query_height(q, 4) == 10);
    lemma_one_height(coms, p, zeta, zeta_next);
    lemma_listed(proofs, coms, index, alpha@, 11);
    lemma_four_terms(coms, p, zeta, zeta_next, q);
    lemma_inputs(coms, p, zeta, zeta_next, q, params, index, alpha@);
    law_rows_fit(proofs, coms);
    law_deep_point_native(index, 10);
    assert(shr_z(index, 0) == index);
    assert(deep_point(index, 10, 10) == point_z(index, 10));
    let terms = four_terms(p, zeta, zeta_next, q);
    let ro = opening_of(terms, point_z(index, 10), alpha@);
    assert(t.query.ro@ == ro);
    assert(steps.len() == 6);
    lemma_fold_passed(t, p, q, params, index, ro, betas);
    let c = views(p.fri.final_poly@);
    let x = (crate::native_fri::query_point(folds(index, params, steps, ro, 6).index, 10), 0int);
    assert(poly_at(c, x) == c[0]) by {
        reveal_with_fuel(poly_at, 2);
        assert(c.skip(1).len() == 0);
        assert(0 * x.0 == 0 && 0 * x.1 == 0) by (nonlinear_arith);
    }
    assert(c[0] == p.fri.final_poly@[0]@);
    let (a, b) = (proofs[0].opened_values@[0]@, proofs[1].opened_values@[0]@);
    assert(t.leaf_z(0) =~= ints(a));
    assert(t.leaf_z(1) =~= ints(b));
    lemma_leaf(t.leaf_z(0));
    lemma_leaf(t.leaf_z(1));
    assert(t.path_at_z(0) == index_path(proofs[0].path@, index));
    assert(t.path_at_z(1) == index_path(proofs[1].path@, index));
    assert forall|k: int| #![trigger t.path_at_z(k)] 0 <= k < 8 implies t.path_at_z(k).len()
        == seg_depth(k) && reduced(entry_of(p, q, index, k)) == root_of(
        leaf_digest(t.leaf_z(k)),
        t.path_at_z(k),
    ) by {
        if k >= 2 {
            assert(t.path_at_z(k).len() == seg_depth(k));
        } else {
            assert(k == 0 || k == 1);
        }
    }
}

/// The cells of the terms in the first row of a tile.
proof fn lemma_head_terms(q: Query, k: int)
    requires
        q.terms.len() == 4,
        0 <= k < 4,
    ensures
        pair(arith_row(q, 4, 0), 31 + 9 * k) == q.terms@[k].z@,
        pair(arith_row(q, 4, 0), 33 + 9 * k) == q.terms@[k].pz@,
{
    let x = point_z(q.index as int, 10);
    let cs = terms_cells(q.terms@, x, q.alpha@, 4);
    let h = head_cells(q, 10);
    let row = arith_row(q, 4, 0);
    lemma_terms_len(q.terms@, x, q.alpha@, 4);
    assert(h.len() == 58);
    assert forall|i: int| 0 <= i < 36 implies #[trigger] cs[i] == row[31 + i] by {
        assert(h[22 + i] == cs[i]);
        assert(row[9 + (22 + i)] == h[22 + i]);
    }
    lemma_terms_at(q.terms@, x, q.alpha@, 4, k, 0);
    lemma_terms_at(q.terms@, x, q.alpha@, 4, k, 1);
    lemma_terms_at(q.terms@, x, q.alpha@, 4, k, 2);
    lemma_terms_at(q.terms@, x, q.alpha@, 4, k, 3);
    assert(cs[9 * k + 0] == row[31 + (9 * k + 0)]);
    assert(cs[9 * k + 1] == row[31 + (9 * k + 1)]);
    assert(cs[9 * k + 2] == row[31 + (9 * k + 2)]);
    assert(cs[9 * k + 3] == row[31 + (9 * k + 3)]);
}

/// The fold points of a query are not zero.
proof fn lemma_rounds_ok(
    rounds: Seq<FoldRound>,
    openings: Seq<CommitOpening>,
    betas: Seq<Challenge>,
    index: int,
)
    requires
        generators(),
        openings.len() == 6,
        rounds_of(rounds, openings, betas, index, 10),
    ensures
        rounds_ok(rounds),
{
    assert forall|r: int| 0 <= r < rounds.len() implies red(2 * (#[trigger] rounds[r]).s) != 0 by {
        let g = two_adic_gen(10 - r);
        let s = rounds[r].s as int;
        assert(s == fold_point(index, 10, r));
        assert(0 < g < P);
        lemma_red_small(g);
        lemma_pow_nonzero(
            g,
            rev_z(shr_z(index, (r + 1) as nat), (9 - r) as nat) as nat,
        );
        lemma_red_small(2);
        if red(2 * s) == 0 {
            law_no_zero_divisors(2, s);
        }
    }
}

/// The entry of a cap that path `k` of query `i` leads to, at the index that the replay gave it.
pub open spec fn entry_of_query(p: PlainProof, r: Replay, i: int, k: int) -> Digest {
    entry_of(p, p.fri.query_proofs@[i], r.index_felts@[i] as int % 1024, k)
}

/// The public values of the fused system for a proof: what its replay gave, the final evaluation, the
/// public value of the proof, and entries of the caps that every query leads to.
pub open spec fn publics_are(
    pv: Seq<int>,
    air: MonolithAir,
    r: Replay,
    p: PlainProof,
    pvs: Seq<int>,
) -> bool {
    &&& starts_with(pv, r)
    &&& pair(pv, air.cap_z() - 2) == p.fri.final_poly@[0]@
    &&& pv[air.cap_z() + 8] == pvs[0]
    &&& forall|i: int, k: int, x: int|
        #![trigger entry_of_query(p, r, i, k)@[x]]
        0 <= i < p.fri.query_proofs.len() && 0 <= k < 8 && 0 <= x < 4 ==> cong(
            pv[air.cap_z() + seg_pub(k) + x],
            entry_of_query(p, r, i, k)@[x] as int,
        )
}

/// The check at the out-of-domain point, in the first row of a tile.
proof fn lemma_tile_rest(
    q: Query,
    p: PlainProof,
    proof_query: QueryProof,
    zeta: Challenge,
    zeta_next: Challenge,
    alpha: (int, int),
    pvs: Seq<int>,
    pv: Seq<int>,
    at: int,
)
    requires
        generators(),
        fused_shape(p),
        q.terms@ == four_terms(p, zeta, zeta_next, proof_query),
        zeta_next@ == ered(zscale(zeta@, two_adic_gen(6))),
        pair(pv, 0) == alpha,
        pair(pv, 2) == zeta@,
        pv[at] == pvs[0],
        econg(
            const_rest(
                alpha,
                zeta@,
                p.trace_local@[0]@,
                p.trace_next->0@[0]@,
                views(p.quotient_chunks@[0]@),
                pvs[0],
                6,
            ),
            (0int, 0int),
        ),
    ensures
        points_hold(arith_row(q, 4, 0), pv, 31, two_adic_gen(6)),
        econg(
            epilogue_z(
                Env {
                    cur: arith_row(q, 4, 0),
                    nxt: Seq::empty(),
                    per: Seq::empty(),
                    pis: pv,
                },
                33,
                at,
                finv_z(two_adic_gen(6)),
            ),
            (0, 0),
        ),
{
    lemma_head_terms(q, 0);
    lemma_head_terms(q, 1);
    lemma_head_terms(q, 2);
    lemma_head_terms(q, 3);
    lemma_ered(zscale(zeta@, two_adic_gen(6)));
    let c = views(p.quotient_chunks@[0]@);
    assert(c[0] == p.quotient_chunks@[0]@[0]@ && c[1] == p.quotient_chunks@[0]@[1]@);
    let (c10, c11) = c[1];
    assert(zmul((0int, 1int), c[1]) == ((W_EXT as int) * c11, c10)) by {
        assert(0 * c10 == 0 && 1 * c11 == c11 && 0 * c11 == 0 && 1 * c10 == c10)
            by (nonlinear_arith);
    }
}

/// The fold group of a round as the cells of its row give it.
proof fn lemma_group_cells(group: Seq<int>, ro: (int, int), rounds: Seq<FoldRound>, j: int, k: int)
    requires
        0 <= j < rounds.len(),
        0 <= k < 4,
        group == pair_felts(running(ro, rounds, j as nat), rounds[j]),
    ensures
        group[k] == super::fused::group_z(bare_chain_cells(ro, rounds, j), k),
{
    let e = running(ro, rounds, j as nat);
    let rd = rounds[j];
    let row = fold_cells(e, rd);
    assert(bare_chain_cells(ro, rounds, j) == row);
    assert(row[0] == e.0 && row[1] == e.1 && row[2] == rd.sib@.0 && row[3] == rd.sib@.1);
    assert(row[6] == (if rd.bit {
        1int
    } else {
        0int
    }));
    assert(k == 0 || k == 1 || k == 2 || k == 3);
}

/// The rounds of a query have their challenges from the public values, and their bits from the index.
proof fn lemma_round_values(
    rounds: Seq<FoldRound>,
    openings: Seq<CommitOpening>,
    r: Replay,
    pv: Seq<int>,
    index: int,
    j: int,
)
    requires
        r.challenges.len() == 9,
        starts_with(pv, r),
        openings.len() == 6,
        rounds_of(rounds, openings, r.challenges@.skip(3), index, 10),
        0 <= j < 6,
    ensures
        econg(rounds[j].beta@, pair(pv, 6 + 2 * j)),
        rounds[j].bit <==> bit_of(index, j) == 1,
{
    assert(rounds[j].beta == r.challenges@.skip(3)[j]);
    assert(pair(pv, 2 * (3 + j)) == r.challenges@[3 + j]@);
    assert(2 * (3 + j) == 6 + 2 * j);
}

/// The openings of a query lead to the entries in the public values.
proof fn lemma_entries(
    air: MonolithAir,
    t: TileOpenings,
    p: PlainProof,
    r: Replay,
    zeta: Challenge,
    zeta_next: Challenge,
    pvs: Seq<int>,
    pv: Seq<int>,
    i: int,
    k: int,
    x: int,
)
    requires
        publics_are(pv, air, r, p, pvs),
        0 <= i < p.fri.query_proofs.len(),
        t.query.index == r.index_felts@[i] % 1024,
        passed(t, p, p.fri.query_proofs@[i], zeta, zeta_next, t.query.index as int),
        0 <= k < 8,
        0 <= x < 4,
    ensures
        cong(
            pv[air.cap_z() + seg_pub(k) + x],
            root_of(leaf_digest(t.leaf_z(k)), t.path_at_z(k))[x],
        ),
{
    let d = entry_of_query(p, r, i, k);
    assert(d == entry_of(p, p.fri.query_proofs@[i], t.query.index as int, k));
    assert(reduced(d) == root_of(leaf_digest(t.leaf_z(k)), t.path_at_z(k)));
    assert(cong(pv[air.cap_z() + seg_pub(k) + x], d@[x] as int));
    assert(reduced(d)[x] == red(d@[x] as int));
    lemma_red_red(d@[x] as int);
}

/// The openings of a query that passes, as the fused system wants them.
proof fn lemma_query_honest(
    air: MonolithAir,
    t: TileOpenings,
    p: PlainProof,
    r: Replay,
    zeta: Challenge,
    zeta_next: Challenge,
    betas: Seq<Challenge>,
    pvs: Seq<int>,
    pv: Seq<int>,
    i: int,
)
    requires
        generators(),
        fused_shape(p),
        air.n_terms == 4,
        air.nb_z() == 9,
        r.challenges.len() == 9,
        betas == r.challenges@.skip(3),
        r.challenges@[1] == zeta,
        zeta_next@ == ered(zscale(zeta@, two_adic_gen(6))),
        publics_are(pv, air, r, p, pvs),
        0 <= i < p.fri.query_proofs.len(),
        i < r.index_felts.len(),
        r.index_felts@[i] < P,
        p.fri.query_proofs@[i].commit_phase_openings.len() == 6,
        t.query.index == r.index_felts@[i] % 1024,
        t.query.alpha == r.challenges@[2],
        t.v == t.query.terms@[0].px,
        t.path.len() == 4,
        t.quot_path.len() == 4,
        rounds_of(
            t.query.rounds@,
            p.fri.query_proofs@[i].commit_phase_openings@,
            betas,
            t.query.index as int,
            10,
        ),
        groups_are(
            t.commits@,
            p.fri.query_proofs@[i].commit_phase_openings@,
            t.query.rounds@,
            t.query.ro@,
            t.query.index as int,
        ),
        passed(t, p, p.fri.query_proofs@[i], zeta, zeta_next, t.query.index as int),
        econg(
            const_rest(
                r.challenges@[0]@,
                zeta@,
                p.trace_local@[0]@,
                p.trace_next->0@[0]@,
                views(p.quotient_chunks@[0]@),
                pvs[0],
                6,
            ),
            (0int, 0int),
        ),
    ensures
        m_query(air, t, r.challenges@[2]@, r.index_felts@[i] as int, pv, i),
{
    let q = t.query;
    let pq = p.fri.query_proofs@[i];
    let openings = pq.commit_phase_openings@;
    let felt = r.index_felts@[i] as int;
    lemma_red_small(felt);
    lemma_rounds_ok(q.rounds@, openings, betas, q.index as int);
    assert(t.fits(4)) by {
        assert forall|k: int| 2 <= k < 8 implies #[trigger] t.path_at_z(k).len() == seg_depth(k) by {}
    }
    assert(pair(pv, 0) == r.challenges@[0]@) by {
        assert(pair(pv, 2 * 0int) == r.challenges@[0]@);
    }
    assert(pair(pv, 2) == r.challenges@[1]@) by {
        assert(pair(pv, 2 * 1int) == r.challenges@[1]@);
    }
    assert forall|j: int| #![trigger q.rounds@[j]] 0 <= j < 6 implies econg(
        q.rounds@[j].beta@,
        pair(pv, 6 + 2 * j),
    ) && (q.rounds@[j].bit <==> bit_of(q.index as int, j) == 1) by {
        lemma_round_values(q.rounds@, openings, r, pv, q.index as int, j);
    }
    lemma_tile_rest(
        q,
        p,
        pq,
        zeta,
        zeta_next,
        r.challenges@[0]@,
        pvs,
        pv,
        air.cap_z() + 8,
    );
    assert forall|j: int, k: int|
        #![trigger t.commits@[j].group@[k]]
        0 <= j < 6 && 0 <= k < 4 implies cong(
        t.commits@[j].group@[k] as int,
        super::fused::group_z(bare_chain_cells(q.ro@, q.rounds@, j), k),
    ) by {
        let g = ints(t.commits@[j].group@);
        assert(g[k] == t.commits@[j].group@[k]);
        lemma_group_cells(g, q.ro@, q.rounds@, j, k);
    }
    assert forall|k: int, x: int|
        #![trigger pv[air.cap_z() + seg_pub(k) + x]]
        0 <= k < 8 && 0 <= x < 4 implies cong(
        pv[air.cap_z() + seg_pub(k) + x],
        root_of(leaf_digest(t.leaf_z(k)), t.path_at_z(k))[x],
    ) by {
        lemma_entries(air, t, p, r, zeta, zeta_next, pvs, pv, i, k, x);
    }
}

/// Queries that pass, one by one.
proof fn lemma_queries_pass(
    d: Duplex,
    params: FriParams,
    f: FriProof,
    coms: Seq<OpenedBatch>,
    alpha: (int, int),
    betas: Seq<(int, int)>,
    n: nat,
    i: nat,
)
    requires
        i < n,
        queries_run(d, params, f, coms, alpha, betas, 10, n).fail is None,
    ensures
        ({
            let before = queries_run(d, params, f, coms, alpha, betas, 10, i);
            let index = sampled(before.sponge) % (pow2(10) as int);
            &&& before.fail is None
            &&& query_fail(
                params,
                f,
                coms,
                f.query_proofs@[i as int],
                index,
                alpha,
                betas,
                10,
            ) is None
        }),
    decreases n,
{
    if i < n - 1 {
        lemma_queries_pass(d, params, f, coms, alpha, betas, (n - 1) as nat, i);
    }
}

/// Something goes in before every challenge of a proof with Merkle caps.
proof fn lemma_script_ok(p: PlainProof, pvs: Seq<int>)
    requires
        fused_shape(p),
        all_caps_ok(p, false),
    ensures
        script_ok(script(p, 6, pvs)),
{
    let s = script(p, 6, pvs);
    assert(s.instance.len() >= 3);
    assert(p.quotient_cap.len() > 0);
    assert(s.commitment.len() >= cap_z(p.quotient_cap@).len());
    assert(s.opened.len() >= views(p.trace_local@).len());
    assert forall|r: int| 0 <= r < s.caps.len() implies (#[trigger] s.caps[r]).len() > 0 by {
        assert(is_pow2(p.fri.commit_phase_commits@[r].len() as int));
    }
}

/// The tiles are those of the queries of a proof, at the indices and with the challenges of a replay.
pub open spec fn tiles_are(
    tiles: Seq<TileOpenings>,
    p: PlainProof,
    coms: Seq<OpenedBatch>,
    r: Replay,
) -> bool {
    &&& tiles.len() == p.fri.query_proofs.len()
    &&& forall|i: int|
        0 <= i < tiles.len() ==> opened_tile(
            #[trigger] tiles[i],
            p.fri.query_proofs@[i],
            coms,
            r.index_felts@[i] as int,
            r.challenges@[2],
            r.challenges@.skip(3),
        )
}

/// What the challenges of a replay are, and that every query passes with them.
proof fn lemma_accepted(params: FriParams, p: PlainProof, pvs: Seq<int>, o: OpeningRounds, r: Replay)
    requires
        fused_params(params),
        fused_shape(p),
        const_rounds(o, p, pvs),
        const_outcome(o, params, p, pvs) is Ok,
        r.of(script(p, 6, pvs)),
    ensures
        r.challenges.len() == 9,
        r.index_felts.len() == p.fri.query_proofs.len(),
        r.challenges@[0]@ == o.alpha@,
        r.challenges@[1] == o.zeta,
        p.fri.final_poly.len() == 1,
        forall|i: int|
            #![trigger p.fri.query_proofs@[i]]
            0 <= i < p.fri.query_proofs.len() ==> p.fri.query_proofs@[i].commit_phase_openings.len()
                == 6 && query_fail(
                params,
                p.fri,
                o.coms@,
                p.fri.query_proofs@[i],
                r.index_felts@[i] as int % 1024,
                r.challenges@[2]@,
                views(r.challenges@.skip(3)),
                10,
            ) is None,
{
    lemma2_to64();
    let s = script(p, 6, pvs);
    let coms = o.coms@;
    let f = p.fri;
    let n = f.query_proofs@.len();
    let betas = r.challenges@.skip(3);
    law_replay_agrees(p, pvs, params, coms, o.zeta, o.zeta_next, 1);
    lemma_rounds_height(coms, p, o.zeta, o.zeta_next, true, 1, 4);
    let d = observed_coms(after_ext(before_zeta(p, 6, pvs, false)), coms, coms.len());
    let run = rounds_run(after_ext(d), params, f, round_count(f));
    let e = observed_all(observed_exts(run.sponge, views(f.final_poly@)), arities_z(f));
    let first = after_witness(e, params.query_pow_bits as int, f.query_pow_witness as int);
    let alpha = sampled_ext(d);
    assert(fri_run(d, params, f, coms).fail is None);
    assert(proof_height(params, f) == 10);
    assert(queries_run(first, params, f, coms, alpha, run.betas, 10, n).fail is None);
    assert(r.challenges@[0]@ == sampled_ext(at_challenge(s, 0)));
    assert(r.challenges@[1]@ == sampled_ext(at_challenge(s, 1)));
    assert(r.challenges@[2]@ == sampled_ext(at_challenge(s, 2)));
    assert(views(betas) =~= run.betas) by {
        assert forall|j: int| 0 <= j < 6 implies #[trigger] views(betas)[j] == run.betas[j] by {
            assert(betas[j] == r.challenges@[3 + j]);
            assert(r.challenges@[3 + j]@ == sampled_ext(at_challenge(s, 3 + j)));
        }
    }
    assert forall|i: int| #![trigger f.query_proofs@[i]] 0 <= i < n implies query_fail(
        params,
        f,
        coms,
        f.query_proofs@[i],
        r.index_felts@[i] as int % 1024,
        alpha,
        run.betas,
        10,
    ) is None by {
        lemma_queries_pass(first, params, f, coms, alpha, run.betas, n, i as nat);
        assert(queries_run(first, params, f, coms, alpha, run.betas, 10, i as nat).sponge == at_index(
            s,
            i as nat,
        ));
        assert(r.index_felts@[i] == sampled(at_index(s, i as nat)));
    }
}

/// The openings of query `i` of an accepted proof are those of an honest trace.
proof fn lemma_tile_honest(
    params: FriParams,
    p: PlainProof,
    pvs: Seq<int>,
    o: OpeningRounds,
    r: Replay,
    air: MonolithAir,
    t: TileOpenings,
    pv: Seq<int>,
    i: int,
)
    requires
        generators(),
        fused_params(params),
        fused_shape(p),
        rounds_are(o.coms@, p, o.zeta, o.zeta_next, true, 1, false),
        o.zeta_next@ == ered(zscale(o.zeta@, two_adic_gen(6))),
        air.n_terms == 4,
        air.nb_z() == 9,
        r.challenges.len() == 9,
        r.challenges@[1] == o.zeta,
        p.fri.final_poly.len() == 1,
        0 <= i < p.fri.query_proofs.len(),
        i < r.index_felts.len(),
        r.index_felts@[i] < P,
        p.fri.query_proofs@[i].commit_phase_openings.len() == 6,
        query_fail(
            params,
            p.fri,
            o.coms@,
            p.fri.query_proofs@[i],
            r.index_felts@[i] as int % 1024,
            r.challenges@[2]@,
            views(r.challenges@.skip(3)),
            10,
        ) is None,
        opened_tile(
            t,
            p.fri.query_proofs@[i],
            o.coms@,
            r.index_felts@[i] as int,
            r.challenges@[2],
            r.challenges@.skip(3),
        ),
        publics_are(pv, air, r, p, pvs),
        econg(
            const_rest(
                r.challenges@[0]@,
                o.zeta@,
                p.trace_local@[0]@,
                p.trace_next->0@[0]@,
                views(p.quotient_chunks@[0]@),
                pvs[0],
                6,
            ),
            (0int, 0int),
        ),
    ensures
        m_query(air, t, r.challenges@[2]@, r.index_felts@[i] as int, pv, i),
{
    let q = p.fri.query_proofs@[i];
    let felt = r.index_felts@[i] as int;
    let betas = r.challenges@.skip(3);
    lemma_query_passed(
        t,
        o.coms@,
        p,
        q,
        o.zeta,
        o.zeta_next,
        params,
        felt,
        r.challenges@[2],
        betas,
    );
    assert(t.path_at_z(0).len() == seg_depth(0) && t.path_at_z(1).len() == seg_depth(1));
    lemma_query_honest(air, t, p, r, o.zeta, o.zeta_next, betas, pvs, pv, i);
}

/// The recorded inputs of a proof's transcript are those of an honest trace.
proof fn lemma_transcript_honest(
    p: PlainProof,
    pvs: Seq<int>,
    r: Replay,
    t: FullTranscriptAir,
    pv: Seq<int>,
)
    requires
        fused_shape(p),
        all_caps_ok(p, false),
        r.of(script(p, 6, pvs)),
        t == r.air(),
        starts_with(pv, r),
    ensures
        states(r.block_inputs@).len() == t.counts.len(),
        inputs_ok(states(r.block_inputs@)),
        follows(ft_inputs(states(r.block_inputs@)), t.counts@),
        bound(t, ft_inputs(states(r.block_inputs@)), pv),
        t.binds.len() == 9,
        forall|q: int| 0 <= q < r.index_felts.len() ==> (#[trigger] r.index_felts@[q]) < P,
        t.padded_z() * 32 <= usize::MAX && 2 * t.binds.len() + t.index_binds.len() + 100
            <= usize::MAX ==> t.wf(),
{
    let s = script(p, 6, pvs);
    lemma_script_ok(p, pvs);
    law_replay_bound(r, s, pv);
    assert(t.counts == r.counts && t.binds == r.binds && t.index_binds == r.index_binds);
}

/// An accepted proof of the constant column, of the size that the fused system has the geometry of,
/// gives an honest witness: its replayed transcript, and the openings of its queries, are what a trace
/// is laid out from, for public values that hold what the replay gave, the final evaluation, the
/// proof's public value and the entries of the caps, wherever all queries lead to the same entries.
pub proof fn law_accepted_honest(
    params: FriParams,
    p: PlainProof,
    pvs: Seq<int>,
    o: OpeningRounds,
    r: Replay,
    air: MonolithAir,
    tiles: Seq<TileOpenings>,
    pv: Seq<int>,
)
    requires
        generators(),
        fused_params(params),
        fused_shape(p),
        all_caps_ok(p, false),
        pvs.len() > 0,
        rounds_fail(p, 6, pvs, true, false) is None,
        const_rounds(o, p, pvs),
        const_outcome(o, params, p, pvs) is Ok,
        r.of(script(p, 6, pvs)),
        m_transcript(air) == r.air(),
        air.n_terms == 4,
        air.n_queries == p.fri.query_proofs.len(),
        tiles_are(tiles, p, o.coms@, r),
        publics_are(pv, air, r, p, pvs),
    ensures
        m_honest(
            air,
            states(r.block_inputs@),
            tiles,
            r.challenges@[2]@,
            ints(r.index_felts@),
            pv,
        ),
{
    lemma_transcript_honest(p, pvs, r, m_transcript(air), pv);
    lemma_accepted(params, p, pvs, o, r);
    law_const_rest(p, pvs, o.alpha@, o.zeta@, 6);
    let felts = ints(r.index_felts@);
    let alpha = r.challenges@[2]@;
    assert forall|i: int| #![trigger tiles[i]] 0 <= i < tiles.len() implies m_query(
        air,
        tiles[i],
        alpha,
        felts[i],
        pv,
        i,
    ) by {
        assert(p.fri.query_proofs@[i].commit_phase_openings.len() == 6);
        assert(r.index_felts@[i] < P);
        lemma_tile_honest(params, p, pvs, o, r, air, tiles[i], pv, i);
    }
    assert(econg(alpha, pair(pv, 4))) by {
        assert(pair(pv, 2 * 2int) == r.challenges@[2]@);
    }
}

/// The trace that is laid out from an accepted proof meets the constraints of the fused system.
pub proof fn law_accepted_satisfies(
    params: FriParams,
    p: PlainProof,
    pvs: Seq<int>,
    o: OpeningRounds,
    r: Replay,
    air: MonolithAir,
    tiles: Seq<TileOpenings>,
    pv: Seq<int>,
)
    requires
        generators(),
        fused_params(params),
        fused_shape(p),
        all_caps_ok(p, false),
        pvs.len() > 0,
        rounds_fail(p, 6, pvs, true, false) is None,
        const_rounds(o, p, pvs),
        const_outcome(o, params, p, pvs) is Ok,
        r.of(script(p, 6, pvs)),
        m_transcript(air) == r.air(),
        air.n_terms == 4,
        air.n_queries == p.fri.query_proofs.len(),
        air.fits(),
        tiles_are(tiles, p, o.coms@, r),
        publics_are(pv, air, r, p, pvs),
    ensures
        satisfied(
            |env: Env| air.polys(env),
            air.trace_z(states(r.block_inputs@), tiles, r.challenges@[2]@, ints(r.index_felts@)),
            air.cols_z(),
            pv,
        ),
{
    law_accepted_honest(params, p, pvs, o, r, air, tiles, pv);
    lemma_transcript_honest(p, pvs, r, m_transcript(air), pv);
    air.lemma_height();
    law_monolith_complete(
        air,
        states(r.block_inputs@),
        tiles,
        r.challenges@[2]@,
        ints(r.index_felts@),
        pv,
    );
}

/// The public values of the transcript and the arithmetic of all queries, for a proof: what its replay
/// gave, and the final evaluation.
pub open spec fn p4_publics_are(pv: Seq<int>, air: Phase4AAir, r: Replay, p: PlainProof) -> bool {
    &&& starts_with(pv, r)
    &&& pair(pv, 2 * air.nb_z() + air.ni_z()) == p.fri.final_poly@[0]@
}

/// The arithmetic of tiles.
pub open spec fn queries_of(tiles: Seq<TileOpenings>) -> Seq<Query> {
    Seq::new(tiles.len(), |i: int| tiles[i].query)
}

/// The arithmetic of a query that passes, as the constraints want it.
proof fn lemma_p4_query(
    params: FriParams,
    p: PlainProof,
    o: OpeningRounds,
    r: Replay,
    air: Phase4AAir,
    t: TileOpenings,
    pv: Seq<int>,
    i: int,
)
    requires
        generators(),
        fused_params(params),
        fused_shape(p),
        rounds_are(o.coms@, p, o.zeta, o.zeta_next, true, 1, false),
        air.n_terms == 4,
        air.nb_z() == 9,
        r.challenges.len() == 9,
        p.fri.final_poly.len() == 1,
        0 <= i < p.fri.query_proofs.len(),
        i < r.index_felts.len(),
        r.index_felts@[i] < P,
        p.fri.query_proofs@[i].commit_phase_openings.len() == 6,
        query_fail(
            params,
            p.fri,
            o.coms@,
            p.fri.query_proofs@[i],
            r.index_felts@[i] as int % 1024,
            r.challenges@[2]@,
            views(r.challenges@.skip(3)),
            10,
        ) is None,
        opened_tile(
            t,
            p.fri.query_proofs@[i],
            o.coms@,
            r.index_felts@[i] as int,
            r.challenges@[2],
            r.challenges@.skip(3),
        ),
        p4_publics_are(pv, air, r, p),
    ensures
        p4_query(air, t.query, r.challenges@[2]@, r.index_felts@[i] as int, pv, i),
{
    let q = t.query;
    let pq = p.fri.query_proofs@[i];
    let felt = r.index_felts@[i] as int;
    let betas = r.challenges@.skip(3);
    lemma_query_passed(
        t,
        o.coms@,
        p,
        pq,
        o.zeta,
        o.zeta_next,
        params,
        felt,
        r.challenges@[2],
        betas,
    );
    lemma_red_small(felt);
    lemma_rounds_ok(q.rounds@, pq.commit_phase_openings@, betas, q.index as int);
    assert(running(q.ro@, q.rounds@, 7) == running(q.ro@, q.rounds@, 6));
    assert forall|j: int| #![trigger q.rounds@[j]] 0 <= j < 6 implies econg(
        q.rounds@[j].beta@,
        pair(pv, 6 + 2 * j),
    ) && (q.rounds@[j].bit <==> bit_of(q.index as int, j) == 1) by {
        lemma_round_values(q.rounds@, pq.commit_phase_openings@, r, pv, q.index as int, j);
    }
}

/// An accepted proof of the constant column, of the size that the tiles have the geometry of, gives an
/// honest witness of its transcript and of the arithmetic of its queries.
pub proof fn law_accepted_phase4a(
    params: FriParams,
    p: PlainProof,
    pvs: Seq<int>,
    o: OpeningRounds,
    r: Replay,
    air: Phase4AAir,
    tiles: Seq<TileOpenings>,
    pv: Seq<int>,
)
    requires
        generators(),
        fused_params(params),
        fused_shape(p),
        all_caps_ok(p, false),
        const_rounds(o, p, pvs),
        const_outcome(o, params, p, pvs) is Ok,
        r.of(script(p, 6, pvs)),
        air.transcript() == r.air(),
        air.n_terms == 4,
        air.n_queries == p.fri.query_proofs.len(),
        tiles_are(tiles, p, o.coms@, r),
        p4_publics_are(pv, air, r, p),
    ensures
        p4_honest(
            air,
            states(r.block_inputs@),
            queries_of(tiles),
            r.challenges@[2]@,
            ints(r.index_felts@),
            pv,
        ),
{
    lemma_transcript_honest(p, pvs, r, air.transcript(), pv);
    lemma_accepted(params, p, pvs, o, r);
    let felts = ints(r.index_felts@);
    let alpha = r.challenges@[2]@;
    let qs = queries_of(tiles);
    assert(air.nb_z() == 9);
    assert forall|i: int| #![trigger qs[i]] 0 <= i < qs.len() implies p4_query(
        air,
        qs[i],
        alpha,
        felts[i],
        pv,
        i,
    ) by {
        assert(qs[i] == tiles[i].query);
        assert(p.fri.query_proofs@[i].commit_phase_openings.len() == 6);
        assert(r.index_felts@[i] < P);
        lemma_p4_query(params, p, o, r, air, tiles[i], pv, i);
    }
    assert(econg(alpha, pair(pv, 4))) by {
        assert(pair(pv, 2 * 2int) == r.challenges@[2]@);
    }
}

/// The trace that is laid out from the transcript and the queries of an accepted proof meets the
/// constraints.
pub proof fn law_accepted_phase4a_satisfies(
    params: FriParams,
    p: PlainProof,
    pvs: Seq<int>,
    o: OpeningRounds,
    r: Replay,
    air: Phase4AAir,
    tiles: Seq<TileOpenings>,
    pv: Seq<int>,
)
    requires
        generators(),
        fused_params(params),
        fused_shape(p),
        all_caps_ok(p, false),
        const_rounds(o, p, pvs),
        const_outcome(o, params, p, pvs) is Ok,
        r.of(script(p, 6, pvs)),
        air.transcript() == r.air(),
        air.n_terms == 4,
        air.n_queries == p.fri.query_proofs.len(),
        air.fits(),
        tiles_are(tiles, p, o.coms@, r),
        p4_publics_are(pv, air, r, p),
    ensures
        satisfied(
            |env: Env| air.polys(env),
            air.trace_z(
                states(r.block_inputs@),
                queries_of(tiles),
                r.challenges@[2]@,
                ints(r.index_felts@),
            ),
            air.cols_z(),
            pv,
        ),
{
    law_accepted_phase4a(params, p, pvs, o, r, air, tiles, pv);
    lemma_transcript_honest(p, pvs, r, air.transcript(), pv);
    air.lemma_height();
    law_phase4a_complete(
        air,
        states(r.block_inputs@),
        queries_of(tiles),
        r.challenges@[2]@,
        ints(r.index_felts@),
        pv,
    );
}

} // verus!
