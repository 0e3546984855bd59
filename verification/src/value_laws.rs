//! The values that a check of a proof computes, each by how one more of its parts changes it.
use crate::challenger::views;
use crate::field::{ered, finv_z, pow2k, red, zadd, zmul, zscale, Challenge};
use crate::fri_fold::fold_value;
use crate::fri_input::{input_fail, listed, OpenedBatch};
use crate::fri_query::{fold_run, CommitStep, Fold, FriParams};
use crate::fri_verify::{query_fail, query_steps};
use crate::gadget_laws::number;
use crate::monolith::cells::{inv_at, power_z, running, terms_cells, FoldRound, Term};
use crate::monolith::general::{differences, general_fold, group_weight, weighted_sum};
use crate::monolith::query::opening_of;
use crate::native_fri::{fold_points, folded, hit, log_z, poly_at, pow_z, query_point};
use crate::plain_proof::{sum_z, BatchOpening, CommitOpening, FriProof, QueryProof};
use crate::query_data::{
    fold_at, query_terms_z, steps_of, zip_batches, zip_len, zip_mats, zip_point, zip_points,
};
use vstd::arithmetic::power2::pow2;
use vstd::prelude::*;

verus! {

/// A query passes exactly where its openings do; where the reduced opening of the largest height is there
/// to start from; where the fold from it passes, ends at the height of the final polynomial and has taken
/// in every other reduced opening; and where the final polynomial has the folded value at the point that
/// is left of the index.
pub proof fn law_query_accepts(
    params: FriParams,
    f: FriProof,
    coms: Seq<OpenedBatch>,
    q: QueryProof,
    index: int,
    alpha: (int, int),
    betas: Seq<(int, int)>,
    log_global: int,
)
    ensures
        ({
            let ros = listed(
                q.input_proof@,
                coms,
                params.log_blowup as int,
                index,
                log_global,
                alpha,
                (log_global + 1) as nat,
            );
            let steps = query_steps(betas, f, q);
            let start = Fold {
                index,
                eval: ros[0].1,
                log_height: log_global,
                taken: 1,
                fail: None,
            };
            let end = fold_run(start, params, steps, ros, betas.len());
            query_fail(params, f, coms, q, index, alpha, betas, log_global) is None <==> {
                &&& input_fail(q.input_proof@, coms, params, index, log_global, alpha) is None
                &&& ros.len() > 0
                &&& ros[0].0 == log_global
                &&& end.fail is None
                &&& end.log_height == params.log_blowup + params.log_final_poly_len
                &&& end.taken >= ros.len()
                &&& ered(
                    poly_at(
                        views(f.final_poly@),
                        (query_point(end.index, log_global as nat), 0int),
                    ),
                ) == ered(end.eval)
            }
        }),
{
}

/// The steps of a query pair each fold challenge with the commitment and the opening of its round.
pub proof fn law_query_steps(betas: Seq<(int, int)>, f: FriProof, q: QueryProof, i: int)
    requires
        0 <= i < betas.len(),
        0 <= betas[i].0 <= u64::MAX,
        0 <= betas[i].1 <= u64::MAX,
    ensures
        query_steps(betas, f, q).len() == betas.len(),
        query_steps(betas, f, q)[i].beta@ == betas[i],
        *query_steps(betas, f, q)[i].commit == f.commit_phase_commits@[i],
        *query_steps(betas, f, q)[i].opening == q.commit_phase_openings@[i],
{
}

/// A polynomial without coefficients is zero, and one more in front multiplies the rest by the point.
pub proof fn law_horner(first: (int, int), rest: Seq<(int, int)>, x: (int, int))
    ensures
        poly_at(Seq::<(int, int)>::empty(), x) == (0int, 0int),
        poly_at(seq![first] + rest, x) == zadd(first, zmul(poly_at(rest, x), x)),
{
    assert((seq![first] + rest).skip(1) =~= rest);
}

/// Powers start at one, and every further one multiplies by the base.
pub proof fn law_powers(x: int, alpha: (int, int), k: nat)
    ensures
        pow_z(x, 0) == 1,
        pow_z(x, k + 1) == red(x * pow_z(x, k)),
        power_z(alpha, 0) == (1int, 0int),
        power_z(alpha, k + 1) == ered(zmul(power_z(alpha, k), alpha)),
{
}

/// The logarithm of a power of two is its exponent.
pub proof fn law_logarithm(k: nat)
    ensures
        log_z(pow2(k) as int) == k,
    decreases k,
{
    vstd::arithmetic::power2::lemma2_to64();
    if k > 0 {
        law_logarithm((k - 1) as nat);
        vstd::arithmetic::power2::lemma_pow2_unfold(k);
        vstd::arithmetic::power2::lemma_pow2_pos((k - 1) as nat);
    }
}

/// A sum without summands is zero, and one more adds to it.
pub proof fn law_sum(s: Seq<int>, x: int)
    ensures
        sum_z(s, 0) == 0,
        sum_z(s.push(x), s.len() + 1) == sum_z(s, s.len()) + x,
{
    lemma_sum_front(s, x, s.len());
}

proof fn lemma_sum_front(s: Seq<int>, x: int, n: nat)
    requires
        n <= s.len(),
    ensures
        sum_z(s.push(x), n) == sum_z(s, n),
    decreases n,
{
    if n > 0 {
        lemma_sum_front(s, x, (n - 1) as nat);
    }
}

/// The opening of no terms is zero, and one more term adds the difference of its claimed and its opened
/// value, over the distance of its point, times the next power of the challenge.
pub proof fn law_opening_step(terms: Seq<Term>, t: Term, x: int, alpha: (int, int))
    ensures
        opening_of(Seq::<Term>::empty(), x, alpha) == (0int, 0int),
        opening_of(terms.push(t), x, alpha) == ered(
            zadd(
                opening_of(terms, x, alpha),
                zmul(
                    zmul(power_z(alpha, terms.len()), (t.pz@.0 - t.px, t.pz@.1)),
                    inv_at(t.z@, x),
                ),
            ),
        ),
{
    crate::fri_input::lemma_opening_push(terms, t, x, alpha);
}

/// The cells of a term: its point, its claimed value, its opened value, the inverse of the distance, and
/// its power of the challenge; those of the next one stand behind them.
pub proof fn law_term_cells(terms: Seq<Term>, x: int, alpha: (int, int), n: nat)
    requires
        n < terms.len(),
    ensures
        ({
            let t = terms[n as int];
            let i = inv_at(t.z@, x);
            let p = power_z(alpha, n);
            &&& terms_cells(terms, x, alpha, 0) == Seq::<int>::empty()
            &&& terms_cells(terms, x, alpha, n + 1) == terms_cells(terms, x, alpha, n) + seq![
                t.z@.0,
                t.z@.1,
                t.pz@.0,
                t.pz@.1,
                t.px as int,
                i.0,
                i.1,
                p.0,
                p.1,
            ]
        }),
{
}

/// A running evaluation starts at the reduced opening; every round folds it with its sibling, the one
/// whose bit is set second; behind the last round it stays.
pub proof fn law_running_step(ro: (int, int), rounds: Seq<FoldRound>, k: nat)
    ensures
        running(ro, rounds, 0) == ro,
        k < rounds.len() && rounds[k as int].bit ==> running(ro, rounds, k + 1) == fold_value(
            rounds[k as int].sib@,
            running(ro, rounds, k),
            rounds[k as int].beta@,
            rounds[k as int].s as int,
        ),
        k < rounds.len() && !rounds[k as int].bit ==> running(ro, rounds, k + 1) == fold_value(
            running(ro, rounds, k),
            rounds[k as int].sib@,
            rounds[k as int].beta@,
            rounds[k as int].s as int,
        ),
        k >= rounds.len() ==> running(ro, rounds, k + 1) == running(ro, rounds, k),
{
}

/// The number that bits make up: nothing for none, and every further one counts twice as much as the one
/// before it.
pub proof fn law_number_step(row: Seq<int>, b: int, n: nat)
    ensures
        number(row, b, 0) == 0,
        number(row, b, n + 1) == number(row, b, n) + red(row[b + n]) * pow2(n),
{
}

/// The fold of a group is the product of the distances of the challenge from all its points, times the
/// sum of its evaluations, each times its point and the weight of the group and over its distance. The
/// weight is the inverse of the group's order times its first point to that order.
pub proof fn law_group_fold(
    evals: Seq<(int, int)>,
    beta: (int, int),
    xs: Seq<int>,
    la: nat,
    w: int,
    n: nat,
)
    ensures
        differences(beta, xs, 0) == (1int, 0int),
        differences(beta, xs, n + 1) == zmul(
            differences(beta, xs, n),
            (beta.0 - xs[n as int], beta.1),
        ),
        weighted_sum(evals, beta, xs, w, 0) == (0int, 0int),
        weighted_sum(evals, beta, xs, w, n + 1) == zadd(
            weighted_sum(evals, beta, xs, w, n),
            zscale(zmul(evals[n as int], inv_at(beta, xs[n as int])), xs[n as int] * w),
        ),
        general_fold(evals, beta, xs, la) == ered(
            zmul(
                differences(beta, xs, pow2(la)),
                weighted_sum(evals, beta, xs, group_weight(xs, la), pow2(la)),
            ),
        ),
        group_weight(xs, la) == finv_z(pow2(la) * pow2k(xs[0], la)),
        pow2k(xs[0], 0) == red(xs[0]),
{
}

/// The fold of a group at a challenge that is the point of a member, and of none before it, is the
/// evaluation of that member; at any other challenge it goes through all of them.
pub proof fn law_fold_at_member(
    index: int,
    lh: nat,
    la: nat,
    beta: (int, int),
    evals: Seq<(int, int)>,
    i: int,
)
    requires
        0 <= i <= fold_points(index, lh, la).len(),
        forall|k: int|
            0 <= k < i ==> ered((beta.0 - #[trigger] fold_points(index, lh, la)[k], beta.1)) != (
                0int,
                0int,
            ),
    ensures
        i == fold_points(index, lh, la).len() ==> folded(index, lh, la, beta, evals) == general_fold(
            evals,
            beta,
            fold_points(index, lh, la),
            la,
        ),
        i < fold_points(index, lh, la).len() && ered(
            (beta.0 - fold_points(index, lh, la)[i], beta.1),
        ) == (0int, 0int) ==> folded(index, lh, la, beta, evals) == ered(evals[i]),
{
    lemma_hit(beta, fold_points(index, lh, la), 0, i);
}

proof fn lemma_hit(beta: (int, int), xs: Seq<int>, from: int, i: int)
    requires
        0 <= from <= i <= xs.len(),
        forall|k: int| from <= k < i ==> ered((beta.0 - #[trigger] xs[k], beta.1)) != (0int, 0int),
    ensures
        hit(beta, xs, from) == hit(beta, xs, i),
    decreases i - from,
{
    if from < i {
        assert(ered((beta.0 - xs[from], beta.1)) != (0int, 0int));
        lemma_hit(beta, xs, from + 1, i);
    }
}

/// The rounds of a fold of any arities are those that the check of the query goes through, as long as it
/// passes and has one reduced opening: the index, the height and the value behind every round are its
/// own.
pub proof fn law_general_folds(
    index: int,
    params: FriParams,
    steps: Seq<CommitStep>,
    ro: (int, int),
    openings: Seq<CommitOpening>,
    betas: Seq<Challenge>,
    log_global: int,
    n: nat,
)
    requires
        n <= openings.len(),
        steps_of(steps, openings, betas),
        fold_run(
            Fold { index, eval: ro, log_height: log_global, taken: 1, fail: None },
            params,
            steps,
            seq![(log_global, ro)],
            n,
        ).fail is None,
    ensures
        ({
            let end = fold_run(
                Fold { index, eval: ro, log_height: log_global, taken: 1, fail: None },
                params,
                steps,
                seq![(log_global, ro)],
                n,
            );
            &&& end.taken == 1
            &&& fold_at(openings, betas, index, log_global, ro, n) == (
                end.index,
                end.log_height,
                end.eval,
            )
        }),
    decreases n,
{
    if n > 0 {
        let start = Fold { index, eval: ro, log_height: log_global, taken: 1, fail: None };
        let before = fold_run(start, params, steps, seq![(log_global, ro)], (n - 1) as nat);
        if before.fail is None {
            law_general_folds(
                index,
                params,
                steps,
                ro,
                openings,
                betas,
                log_global,
                (n - 1) as nat,
            );
            let step = steps[n - 1];
            assert(*step.opening == openings[n - 1] && step.beta == betas[n - 1]);
        }
    }
}

/// The rows of a query and the values claimed of them stand side by side, as far as both go: point by
/// point, matrix by matrix, batch by batch.
pub proof fn law_terms_side_by_side(
    proofs: Seq<BatchOpening>,
    coms: Seq<OpenedBatch>,
    i: int,
    j: int,
    k: int,
    t: int,
)
    requires
        0 <= i < proofs.len(),
        i < coms.len(),
        0 <= j < proofs[i].opened_values.len(),
        j < coms[i].mats.len(),
        0 <= k < coms[i].mats@[j].points.len(),
        0 <= t < proofs[i].opened_values@[j].len(),
        t < coms[i].mats@[j].points@[k].1.len(),
    ensures
        query_terms_z(proofs, coms).contains(
            (Term {
                z: coms[i].mats@[j].points@[k].0,
                pz: coms[i].mats@[j].points@[k].1@[t],
                px: proofs[i].opened_values@[j]@[t],
            }),
        ),
{
    let (rows, mats) = (proofs[i].opened_values@, coms[i].mats@);
    let (row, points) = (rows[j]@, mats[j].points@);
    let term = Term { z: points[k].0, pz: points[k].1@[t], px: row[t] };
    lemma_zip_in_points(row, points, points.len(), k, t);
    lemma_zip_in_mats(rows, mats, zip_len(rows.len(), mats.len()), j, term);
    lemma_zip_in_batches(proofs, coms, zip_len(proofs.len(), coms.len()), i, term);
}

proof fn lemma_in_sum<A>(a: Seq<A>, b: Seq<A>, x: A)
    requires
        a.contains(x) || b.contains(x),
    ensures
        (a + b).contains(x),
{
    if a.contains(x) {
        let k = a.index_of(x);
        assert((a + b)[k] == x);
    } else {
        let k = b.index_of(x);
        assert((a + b)[a.len() + k] == x);
    }
}

proof fn lemma_zip_in_points(
    row: Seq<u64>,
    points: Seq<(Challenge, Vec<Challenge>)>,
    n: nat,
    k: int,
    t: int,
)
    requires
        n <= points.len(),
        0 <= k < n,
        0 <= t < row.len(),
        t < points[k].1.len(),
    ensures
        zip_points(row, points, n).contains(
            (Term { z: points[k].0, pz: points[k].1@[t], px: row[t] }),
        ),
    decreases n,
{
    let term = Term { z: points[k].0, pz: points[k].1@[t], px: row[t] };
    let m = (n - 1) as nat;
    let own = zip_point(row, points[m as int].0, points[m as int].1@);
    if k < m {
        lemma_zip_in_points(row, points, m, k, t);
    } else {
        assert(own[t] == term);
    }
    lemma_in_sum(zip_points(row, points, m), own, term);
}

proof fn lemma_zip_in_mats(
    rows: Seq<Vec<u64>>,
    mats: Seq<crate::fri_input::OpenedMatrix>,
    n: nat,
    j: int,
    term: Term,
)
    requires
        0 <= j < n,
        zip_points(rows[j]@, mats[j].points@, mats[j].points@.len()).contains(term),
    ensures
        zip_mats(rows, mats, n).contains(term),
    decreases n,
{
    let m = (n - 1) as nat;
    let points = mats[m as int].points@;
    if j < m {
        lemma_zip_in_mats(rows, mats, m, j, term);
    }
    lemma_in_sum(
        zip_mats(rows, mats, m),
        zip_points(rows[m as int]@, points, points.len()),
        term,
    );
}

proof fn lemma_zip_in_batches(
    proofs: Seq<BatchOpening>,
    coms: Seq<OpenedBatch>,
    n: nat,
    i: int,
    term: Term,
)
    requires
        0 <= i < n,
        zip_mats(
            proofs[i].opened_values@,
            coms[i].mats@,
            zip_len(proofs[i].opened_values@.len(), coms[i].mats@.len()),
        ).contains(term),
    ensures
        zip_batches(proofs, coms, n).contains(term),
    decreases n,
{
    let m = (n - 1) as nat;
    let (rows, mats) = (proofs[m as int].opened_values@, coms[m as int].mats@);
    if i < m {
        lemma_zip_in_batches(proofs, coms, m, i, term);
    }
    lemma_in_sum(
        zip_batches(proofs, coms, m),
        zip_mats(rows, mats, zip_len(rows.len(), mats.len())),
        term,
    );
}

} // verus!
