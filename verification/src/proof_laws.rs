//! Laws on what a proof puts into its transcript, and on when it is accepted.
use crate::challenger::{after_ext, fresh, observed_all, observed_exts, sampled_ext, views, Duplex};
use crate::epilogue::{
    chunk_weight, const_holds, const_outcome, const_rounds, ext_value, folded_z, gated_value, gated_values,
    hiding_outcome, ood_holds, opened_env, recomposed, Selectors,
};
use crate::expr::Gate;
use crate::field::{econg, einv_z, ered, finv_z, two_adic_gen, zadd, zmul, zscale, zsub, Challenge};
use crate::fri_input::{OpenedBatch, OpenedMatrix};
use crate::fri_query::{epow2k, FriParams};
use crate::fri_verify::fri_run;
use crate::merkle::Digest;
use crate::native_verify::const_constraints;
use crate::plain_proof::{
    cap_z, commitment_z, flat, hiding_opened_z, instance_z, merged, opened_z, PlainProof,
};
use crate::stark::{
    before_alpha, before_zeta, observed_coms, observed_mats, observed_points, quotient_mats, rounds_are,
    rounds_fail, OpeningRounds,
};
use vstd::arithmetic::power2::pow2;
use vstd::prelude::*;

verus! {

/// A cap goes in digest by digest, each lane in turn.
pub proof fn law_cap_lanes(cap: Seq<Digest>, i: int, k: int)
    requires
        0 <= i < cap.len(),
        0 <= k < 4,
    ensures
        cap_z(cap).len() == 4 * cap.len(),
        cap_z(cap)[4 * i + k] == cap[i]@[k],
{
}

/// What goes in before the constraints are combined: the two degrees, a zero, the trace commitment and
/// every public value.
pub proof fn law_instance_lanes(p: PlainProof, base: int, pvs: Seq<int>, i: int, k: int, j: int)
    requires
        0 <= i < p.trace_cap.len(),
        0 <= k < 4,
        0 <= j < pvs.len(),
    ensures
        instance_z(p, base, pvs).len() == 3 + 4 * p.trace_cap.len() + pvs.len(),
        instance_z(p, base, pvs)[0] == p.degree_bits,
        instance_z(p, base, pvs)[1] == base,
        instance_z(p, base, pvs)[2] == 0,
        instance_z(p, base, pvs)[3 + 4 * i + k] == p.trace_cap@[i]@[k],
        instance_z(p, base, pvs)[3 + 4 * p.trace_cap.len() + j] == pvs[j],
{
    law_cap_lanes(p.trace_cap@, i, k);
}

/// What goes in before the out-of-domain point: the quotient commitment and, in a hiding proof that has
/// one, the random commitment behind it.
pub proof fn law_commitment_lanes(p: PlainProof, hiding: bool, i: int, j: int, k: int)
    requires
        0 <= i < p.quotient_cap.len(),
        hiding && p.random_cap is Some ==> 0 <= j < p.random_cap->0.len(),
        0 <= k < 4,
    ensures
        commitment_z(p, hiding)[4 * i + k] == p.quotient_cap@[i]@[k],
        hiding && p.random_cap is Some ==> {
            &&& commitment_z(p, hiding).len() == 4 * p.quotient_cap.len() + 4 * p.random_cap->0.len()
            &&& commitment_z(p, hiding)[4 * p.quotient_cap.len() + 4 * j + k]
                == p.random_cap->0@[j]@[k]
        },
        !hiding || p.random_cap is None ==> commitment_z(p, hiding).len() == 4 * p.quotient_cap.len(),
{
    law_cap_lanes(p.quotient_cap@, i, k);
    if hiding && p.random_cap is Some {
        law_cap_lanes(p.random_cap->0@, j, k);
    }
}

/// The combination challenge is read behind the instance, and the out-of-domain point behind the
/// commitments that follow it.
pub proof fn law_challenges_follow(p: PlainProof, base: int, pvs: Seq<int>, hiding: bool)
    ensures
        before_alpha(p, base, pvs) == observed_all(fresh(), instance_z(p, base, pvs)),
        before_zeta(p, base, pvs, hiding) == observed_all(
            after_ext(before_alpha(p, base, pvs)),
            commitment_z(p, hiding),
        ),
{
}

/// The challenges of a proof of the constant column: that of the constraints behind the instance, the
/// point behind the quotient commitment, and the next point, one step of the trace domain further.
pub proof fn law_const_challenges(o: OpeningRounds, p: PlainProof, pvs: Seq<int>)
    requires
        const_rounds(o, p, pvs),
    ensures
        ({
            let db = p.degree_bits as int;
            let first = observed_all(fresh(), instance_z(p, db, pvs));
            let second = observed_all(after_ext(first), cap_z(p.quotient_cap@));
            &&& o.alpha@ == sampled_ext(first)
            &&& o.zeta@ == sampled_ext(second)
            &&& o.zeta_next@ == ered(zscale(o.zeta@, two_adic_gen(db)))
            &&& rounds_are(o.coms@, p, o.zeta, o.zeta_next, true, 1, false)
        }),
{
    assert(cap_z(p.quotient_cap@) + Seq::<int>::empty() =~= cap_z(p.quotient_cap@));
}

/// The opened values of a list of chunks: those of each chunk in turn.
pub proof fn law_chunks_in_turn(xs: Seq<Vec<Challenge>>, cw: Seq<Vec<Vec<Challenge>>>, n: nat)
    requires
        n < xs.len(),
        n < cw.len(),
    ensures
        flat(xs, 0) == Seq::<(int, int)>::empty(),
        flat(xs, n + 1) == flat(xs, n) + views(xs[n as int]@),
        merged(xs, cw, 0) == Seq::<(int, int)>::empty(),
        merged(xs, cw, n + 1) == merged(xs, cw, n) + views(xs[n as int]@) + views(cw[n as int]@[0]@),
{
    assert(merged(xs, cw, n + 1) =~= merged(xs, cw, n) + views(xs[n as int]@) + views(
        cw[n as int]@[0]@,
    ));
}

/// The opened values of a proof: the trace at the point, at the next point, and every quotient chunk.
pub proof fn law_opened_values(p: PlainProof)
    requires
        p.trace_next is Some,
    ensures
        opened_z(p) == views(p.trace_local@) + views(p.trace_next->0@) + flat(
            p.quotient_chunks@,
            p.quotient_chunks@.len(),
        ),
{
}

/// The opened values of a hiding proof: each list with its random codewords behind it, that of the
/// random round first where there is one.
pub proof fn law_hiding_values(p: PlainProof)
    requires
        p.trace_next is Some,
    ensures
        p.random is None ==> hiding_opened_z(p) == views(p.trace_local@) + views(
            p.codewords@[0]@[0]@[0]@,
        ) + views(p.trace_next->0@) + views(p.codewords@[0]@[0]@[1]@) + merged(
            p.quotient_chunks@,
            p.codewords@[1]@,
            p.quotient_chunks@.len(),
        ),
        p.random is Some ==> hiding_opened_z(p) == views(p.random->0@) + views(
            p.codewords@[0]@[0]@[0]@,
        ) + views(p.trace_local@) + views(p.codewords@[1]@[0]@[0]@) + views(p.trace_next->0@) + views(
            p.codewords@[1]@[0]@[1]@,
        ) + merged(p.quotient_chunks@, p.codewords@[2]@, p.quotient_chunks@.len()),
{
    let t: int = if p.random is Some {
        1
    } else {
        0
    };
    let a = views(p.trace_local@);
    let b = views(p.codewords@[t]@[0]@[0]@);
    let c = views(p.trace_next->0@);
    let d = views(p.codewords@[t]@[0]@[1]@);
    let m = merged(p.quotient_chunks@, p.codewords@[t + 1]@, p.quotient_chunks@.len());
    if p.random is None {
        assert(hiding_opened_z(p) =~= a + b + c + d + m);
    } else {
        let r = views(p.random->0@);
        let s = views(p.codewords@[0]@[0]@[0]@);
        assert(hiding_opened_z(p) =~= r + s + a + b + c + d + m);
    }
}

/// The opened values go into the transcript point by point, matrix by matrix and batch by batch.
pub proof fn law_openings_observed(
    d: Duplex,
    points: Seq<(Challenge, Vec<Challenge>)>,
    mats: Seq<OpenedMatrix>,
    coms: Seq<OpenedBatch>,
    n: nat,
)
    ensures
        observed_points(d, points, 0) == d,
        observed_mats(d, mats, 0) == d,
        observed_coms(d, coms, 0) == d,
        n < points.len() ==> observed_points(d, points, n + 1) == observed_exts(
            observed_points(d, points, n),
            views(points[n as int].1@),
        ),
        n < mats.len() ==> observed_mats(d, mats, n + 1) == observed_points(
            observed_mats(d, mats, n),
            mats[n as int].points@,
            mats[n as int].points@.len(),
        ),
        n < coms.len() ==> observed_coms(d, coms, n + 1) == observed_mats(
            observed_coms(d, coms, n),
            coms[n as int].mats@,
            coms[n as int].mats@.len(),
        ),
{
}

/// The rounds that a proof opens: the random values at the point, in a hiding proof that has a random
/// commitment; the trace at the point and, where it is looked at, at the next one; and every quotient
/// chunk at the point; each against its own commitment and at the height of the proof.
pub proof fn law_rounds_opened(
    coms: Seq<OpenedBatch>,
    p: PlainProof,
    zeta: Challenge,
    zeta_next: Challenge,
    main_next: bool,
    num_chunks: int,
    hiding: bool,
    i: int,
)
    requires
        rounds_are(coms, p, zeta, zeta_next, main_next, num_chunks, hiding),
        0 <= i < num_chunks,
        i < p.quotient_chunks.len(),
    ensures
        ({
            let t: int = if hiding && p.random_cap is Some {
                1
            } else {
                0
            };
            let trace = coms[t].mats@[0];
            let chunk = coms[t + 1].mats@[i];
            &&& coms.len() == t + 2
            &&& t == 1 ==> {
                &&& coms[0].cap@ == p.random_cap->0@
                &&& coms[0].mats.len() == 1
                &&& coms[0].mats@[0].log_size == p.degree_bits
                &&& coms[0].mats@[0].points.len() == 1
                &&& coms[0].mats@[0].points@[0].0 == zeta
                &&& coms[0].mats@[0].points@[0].1@ == p.random->0@
            }
            &&& coms[t].cap@ == p.trace_cap@
            &&& coms[t].mats.len() == 1
            &&& trace.log_size == p.degree_bits
            &&& trace.points@[0].0 == zeta
            &&& trace.points@[0].1@ == p.trace_local@
            &&& main_next ==> trace.points.len() == 2
            &&& main_next ==> trace.points@[1].0 == zeta_next
            &&& main_next && p.trace_next is Some ==> trace.points@[1].1@ == p.trace_next->0@
            &&& !main_next ==> trace.points.len() == 1
            &&& coms[t + 1].cap@ == p.quotient_cap@
            &&& num_chunks <= p.quotient_chunks.len() ==> coms[t + 1].mats.len() == num_chunks
            &&& chunk.log_size == p.degree_bits
            &&& chunk.points.len() == 1
            &&& chunk.points@[0].0 == zeta
            &&& chunk.points@[0].1@ == p.quotient_chunks@[i]@
        }),
{
    let m = quotient_mats(coms, p, hiding)[i];
}

/// A proof is refused before its openings are looked at exactly where its point lies in the trace domain,
/// its random values are missing, or its values at the next point are.
pub proof fn law_rounds_laid(p: PlainProof, base: int, pvs: Seq<int>, main_next: bool, hiding: bool)
    ensures
        rounds_fail(p, base, pvs, main_next, hiding) is None <==> {
            &&& epow2k(
                sampled_ext(before_zeta(p, base, pvs, hiding)),
                base as nat,
            ) != (1int, 0int)
            &&& hiding && p.random_cap is Some ==> p.random is Some
            &&& main_next ==> p.trace_next is Some
        },
{
}

/// Constraints are folded one by one: the fold of those before times the challenge, and the next one.
pub proof fn law_constraints_folded(values: Seq<(int, int)>, v: (int, int), alpha: (int, int))
    ensures
        folded_z(values, alpha, 0) == (0int, 0int),
        folded_z(values.push(v), alpha, values.len() + 1) == ered(
            zadd(zmul(folded_z(values, alpha, values.len()), alpha), v),
        ),
{
    lemma_fold_prefix(values.push(v), values, alpha, values.len());
}

proof fn lemma_fold_prefix(a: Seq<(int, int)>, b: Seq<(int, int)>, alpha: (int, int), n: nat)
    requires
        n <= a.len(),
        n <= b.len(),
        forall|i: int| 0 <= i < n ==> a[i] == b[i],
    ensures
        folded_z(a, alpha, n) == folded_z(b, alpha, n),
    decreases n,
{
    if n > 0 {
        lemma_fold_prefix(a, b, alpha, (n - 1) as nat);
    }
}

/// A constraint counts with the selector of its gate.
pub proof fn law_gates(v: (int, int), s: Selectors)
    ensures
        gated_value(Gate::Always, v, s) == v,
        gated_value(Gate::First, v, s) == ered(zmul(s.is_first@, v)),
        gated_value(Gate::Last, v, s) == ered(zmul(s.is_last@, v)),
        gated_value(Gate::Transition, v, s) == ered(zmul(s.is_transition@, v)),
{
}

/// The selectors of the trace domain at a point: that of the transitions is the distance from the last
/// row, those of the first and the last row are the vanishing polynomial over the distance from that row,
/// and the vanishing polynomial is the point raised to the order of the domain, less one.
pub proof fn law_selectors(s: Selectors, x: (int, int), k: nat)
    requires
        s.of(x, k as int),
    ensures
        ({
            let z = ered(zsub(epow2k(x, k), (1int, 0int)));
            let last = ered(zsub(x, (finv_z(two_adic_gen(k as int)), 0int)));
            &&& s.is_first@ == ered(zmul(z, einv_z(ered(zsub(x, (1int, 0int))))))
            &&& s.is_last@ == ered(zmul(z, einv_z(last)))
            &&& s.is_transition@ == last
            &&& s.inv_van@ == einv_z(z)
        }),
{
}

/// The quotient is put together chunk by chunk, each at its weight over all chunks.
pub proof fn law_quotient_step(
    x: (int, int),
    log_quotient: int,
    log_chunks: nat,
    chunks: Seq<Vec<Challenge>>,
    n: nat,
)
    requires
        n < chunks.len(),
        chunks[n as int].len() >= 2,
    ensures
        recomposed(x, log_quotient, log_chunks, chunks, 0) == (0int, 0int),
        recomposed(x, log_quotient, log_chunks, chunks, n + 1) == ered(
            zadd(
                recomposed(x, log_quotient, log_chunks, chunks, n),
                zmul(
                    chunk_weight(
                        x,
                        log_quotient,
                        (log_quotient - log_chunks) as nat,
                        n as int,
                        pow2(log_chunks),
                    ),
                    ered(
                        zadd(
                            chunks[n as int]@[0]@,
                            zmul((0int, 1int), chunks[n as int]@[1]@),
                        ),
                    ),
                ),
            ),
        ),
{
}

/// The constraints of the constant column hold at a point exactly where, for all selectors of the trace
/// domain there, the constraints on the opened values, folded with the challenge and over the vanishing
/// polynomial, are the quotient.
pub proof fn law_const_checked(
    p: PlainProof,
    pvs: Seq<int>,
    alpha: (int, int),
    zeta: (int, int),
    base: int,
    log_quotient: int,
    log_chunks: nat,
)
    requires
        p.trace_local@.len() > 0,
        p.trace_next is Some,
        p.trace_next->0@.len() > 0,
        pvs.len() > 0,
    ensures
        const_holds(p, pvs, alpha, zeta, base, log_quotient, log_chunks) <==> forall|s: Selectors|
            #[trigger] s.of(zeta, base) ==> {
                let local = p.trace_local@[0]@;
                let next = p.trace_next->0@[0]@;
                let first = ered(zmul(s.is_first@, ered(zsub(ered(local), ered((pvs[0], 0int))))));
                let step = ered(zmul(s.is_transition@, ered(zsub(ered(next), ered(local)))));
                let all = ered(zadd(zmul(ered(zadd(zmul((0int, 0int), alpha), first)), alpha), step));
                econg(
                    zmul(all, s.inv_van@),
                    recomposed(
                        zeta,
                        log_quotient,
                        log_chunks,
                        p.quotient_chunks@,
                        p.quotient_chunks@.len(),
                    ),
                )
            },
{
    assert forall|s: Selectors| #[trigger]
        s.of(zeta, base) implies ood_holds(
        const_constraints(),
        opened_env(p, pvs),
        s,
        alpha,
        recomposed(zeta, log_quotient, log_chunks, p.quotient_chunks@, p.quotient_chunks@.len()),
    ) == ({
        let local = p.trace_local@[0]@;
        let next = p.trace_next->0@[0]@;
        let first = ered(zmul(s.is_first@, ered(zsub(ered(local), ered((pvs[0], 0int))))));
        let step = ered(zmul(s.is_transition@, ered(zsub(ered(next), ered(local)))));
        let all = ered(zadd(zmul(ered(zadd(zmul((0int, 0int), alpha), first)), alpha), step));
        econg(
            zmul(all, s.inv_van@),
            recomposed(zeta, log_quotient, log_chunks, p.quotient_chunks@, p.quotient_chunks@.len()),
        )
    }) by {
        reveal_with_fuel(folded_z, 3);
        reveal_with_fuel(ext_value, 3);
        let cs = const_constraints();
        let env = opened_env(p, pvs);
        let g = gated_values(cs, env, s);
        assert(g.len() == 2);
        assert(ext_value(cs[0].expr, env) == ered(
            zsub(ered(p.trace_local@[0]@), ered((pvs[0], 0int))),
        ));
        assert(ext_value(cs[1].expr, env) == ered(
            zsub(ered(p.trace_next->0@[0]@), ered(p.trace_local@[0]@)),
        ));
    }
}

/// A proof of the constant column is accepted exactly where its low-degree test finds nothing and its
/// constraints hold at the out-of-domain point.
pub proof fn law_const_accepted(o: OpeningRounds, params: FriParams, p: PlainProof, pvs: Seq<int>)
    ensures
        const_outcome(o, params, p, pvs) is Ok <==> {
            &&& fri_run(
                observed_coms(
                    after_ext(before_zeta(p, p.degree_bits as int, pvs, false)),
                    o.coms@,
                    o.coms@.len(),
                ),
                params,
                p.fri,
                o.coms@,
            ).fail is None
            &&& const_holds(
                p,
                pvs,
                o.alpha@,
                o.zeta@,
                p.degree_bits as int,
                p.degree_bits as int,
                0,
            )
        },
{
}

/// A hiding proof is accepted exactly where its degree is within bounds, its rounds can be laid out, its
/// openings were accepted and its constraints hold at the out-of-domain point.
pub proof fn law_hiding_accepted(p: PlainProof, pvs: Seq<int>, max_log_degree: int, opened: bool)
    requires
        max_log_degree >= 0,
    ensures
        hiding_outcome(p, pvs, max_log_degree, opened) is Ok <==> {
            &&& 1 <= p.degree_bits <= max_log_degree
            &&& rounds_fail(p, p.degree_bits - 1, pvs, true, true) is None
            &&& opened
            &&& const_holds(
                p,
                pvs,
                sampled_ext(before_alpha(p, p.degree_bits - 1, pvs)),
                sampled_ext(before_zeta(p, p.degree_bits - 1, pvs, true)),
                p.degree_bits - 1,
                p.degree_bits + 1,
                2,
            )
        },
{
}

} // verus!
