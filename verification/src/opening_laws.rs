//! Laws on the openings of a proof: how they are decoded and handed on, and what a query reads of them.
use crate::bits::lemma_shr;
use crate::challenger::{after_ext, sampled_ext, views};
use crate::decode::{bare_z, codewords_z, decoded, exts_z, fri_z, lists_z, query_z, BareZ, RawZ};
use crate::epilogue::{chunk_weight, frozen};
use crate::expr::{Env, Expr};
use crate::field::{einv_z, ered, finv_z, ints, red, two_adic_gen, zmul, zscale, zsub, Challenge, GENERATOR};
use crate::fri_query::{epow2k, group_z, FriParams};
use crate::hiding_open::{hiding_opened, hiding_rounds, openings_hold, u64s};
use crate::merkle::path_z;
use crate::mmcs::index_path;
use crate::monolith::cells::{running, FoldRound};
use crate::monolith::fused_trace::GroupOpening;
use crate::native_fri::{fold_points, folded, pow_z};
use crate::plain_proof::{CommitOpening, PlainProof, QueryProof};
use crate::query_data::{fold_at, fold_data_is, groups_are, rounds_of, sum_arities, FoldData};
use crate::stark::before_zeta;
use vstd::arithmetic::power2::pow2;
use vstd::prelude::*;

verus! {

/// The value of a polynomial: that of the cell it names, or of its parts put together.
pub proof fn law_polynomial(a: Box<Expr>, b: Box<Expr>, i: usize, c: u64, env: Env)
    ensures
        Expr::Const(c).val(env) == c,
        Expr::Cur(i).val(env) == env.cur[i as int],
        Expr::Next(i).val(env) == env.nxt[i as int],
        Expr::Periodic(i).val(env) == env.per[i as int],
        Expr::Public(i).val(env) == env.pis[i as int],
        Expr::Sum(a, b).val(env) == a.val(env) + b.val(env),
        Expr::Difference(a, b).val(env) == a.val(env) - b.val(env),
        Expr::Product(a, b).val(env) == a.val(env) * b.val(env),
{
    reveal_with_fuel(Expr::val, 2);
}

/// A list of extension elements holds both coordinates of each.
pub proof fn law_decoded_exts(v: Seq<Challenge>, i: int)
    requires
        0 <= i < v.len(),
    ensures
        exts_z(v).len() == v.len(),
        exts_z(v)[i] == seq![v[i].c0, v[i].c1],
{
}

/// Two lists that are encoded alike are the same.
pub proof fn law_exts_injective(a: Seq<Challenge>, b: Seq<Challenge>)
    requires
        exts_z(a) == exts_z(b),
    ensures
        a == b,
{
    assert(a.len() == exts_z(a).len() && b.len() == exts_z(b).len());
    assert forall|i: int| 0 <= i < a.len() implies a[i] == b[i] by {
        assert(exts_z(a)[i] == exts_z(b)[i]);
        assert(exts_z(a)[i][0] == a[i].c0 && exts_z(b)[i][0] == b[i].c0);
        assert(exts_z(a)[i][1] == a[i].c1 && exts_z(b)[i][1] == b[i].c1);
    }
    assert(a =~= b);
}

/// A decoded proof has what its encoding holds: every cap, every opened value, every query with every
/// opening, and every witness.
pub proof fn law_decoded(p: PlainProof, z: RawZ, i: int, q: int)
    requires
        decoded(p, z),
        0 <= i < p.quotient_chunks@.len(),
        0 <= q < p.fri.query_proofs@.len(),
    ensures
        p.degree_bits == z.3,
        p.trace_cap.deep_view() == z.0.0,
        p.quotient_cap.deep_view() == z.0.1,
        p.random_cap.deep_view() == z.0.2,
        exts_z(p.trace_local@) == z.1.0,
        p.trace_next is Some <==> z.1.1 is Some,
        p.trace_next is Some ==> exts_z(p.trace_next->0@) == z.1.1->0,
        p.quotient_chunks@.len() == z.1.4.len(),
        exts_z(p.quotient_chunks@[i]@) == z.1.4[i],
        p.random is Some <==> z.1.5 is Some,
        p.random is Some ==> exts_z(p.random->0@) == z.1.5->0,
        p.fri.commit_phase_commits.deep_view() == z.2.1.0,
        p.fri.commit_pow_witnesses@ == z.2.1.1,
        p.fri.query_proofs@.len() == z.2.1.2.len(),
        query_z(p.fri.query_proofs@[q]) == z.2.1.2[q],
        exts_z(p.fri.final_poly@) == z.2.1.3,
        p.fri.query_pow_witness == z.2.1.4,
{
    assert(lists_z(p.quotient_chunks@)[i] == exts_z(p.quotient_chunks@[i]@));
    assert(fri_z(p.fri).2[q] == query_z(p.fri.query_proofs@[q]));
}

/// The openings of a query, as they are encoded: of every batch its rows, salts and path, and of every
/// round its arity, siblings, salts and path.
pub proof fn law_decoded_query(q: QueryProof, b: int, r: int)
    requires
        0 <= b < q.input_proof@.len(),
        0 <= r < q.commit_phase_openings@.len(),
    ensures
        query_z(q).0.len() == q.input_proof@.len(),
        query_z(q).0[b].0 == q.input_proof@[b].opened_values.deep_view(),
        query_z(q).0[b].1.0 == q.input_proof@[b].salts.deep_view(),
        query_z(q).0[b].1.1 == q.input_proof@[b].path.deep_view(),
        query_z(q).1.len() == q.commit_phase_openings@.len(),
        query_z(q).1[r].0 == q.commit_phase_openings@[r].log_arity,
        query_z(q).1[r].1 == exts_z(q.commit_phase_openings@[r].sibling_values@),
        query_z(q).1[r].2.0 == q.commit_phase_openings@[r].salts.deep_view(),
        query_z(q).1[r].2.1 == q.commit_phase_openings@[r].path.deep_view(),
{
}

/// The random codewords of a proof, as they are encoded, list by list.
pub proof fn law_decoded_codewords(v: Seq<Vec<Vec<Vec<Challenge>>>>, i: int, j: int, k: int)
    requires
        0 <= i < v.len(),
        0 <= j < v[i]@.len(),
        0 <= k < v[i]@[j]@.len(),
    ensures
        codewords_z(v).len() == v.len(),
        codewords_z(v)[i].len() == v[i]@.len(),
        codewords_z(v)[i][j].len() == v[i]@[j]@.len(),
        codewords_z(v)[i][j][k] == exts_z(v[i]@[j]@[k]@),
{
}

/// A proof without salts is one with the same values and no salts.
pub proof fn law_bare_proof(z: BareZ, q: int, b: int, r: int)
    requires
        0 <= q < z.2.2.len(),
        0 <= b < z.2.2[q].0.len(),
        0 <= r < z.2.2[q].1.len(),
    ensures
        bare_z(z).0 == z.0,
        bare_z(z).1 == z.1,
        bare_z(z).3 == z.3,
        bare_z(z).2.0.len() == 0,
        bare_z(z).2.1.0 == z.2.0,
        bare_z(z).2.1.1 == z.2.1,
        bare_z(z).2.1.2.len() == z.2.2.len(),
        bare_z(z).2.1.3 == z.2.3,
        bare_z(z).2.1.4 == z.2.4,
        bare_z(z).2.1.2[q].0.len() == z.2.2[q].0.len(),
        bare_z(z).2.1.2[q].0[b].0 == z.2.2[q].0[b].0,
        bare_z(z).2.1.2[q].0[b].1.0.len() == 0,
        bare_z(z).2.1.2[q].0[b].1.1 == z.2.2[q].0[b].1,
        bare_z(z).2.1.2[q].1.len() == z.2.2[q].1.len(),
        bare_z(z).2.1.2[q].1[r].0 == z.2.2[q].1[r].0,
        bare_z(z).2.1.2[q].1[r].1 == z.2.2[q].1[r].1,
        bare_z(z).2.1.2[q].1[r].2.0.len() == 0,
        bare_z(z).2.1.2[q].1[r].2.1 == z.2.2[q].1[r].2,
{
}

/// The rounds that the openings of a hiding proof are held against: the random values where there are
/// any, the trace at the point and at the next one, and every quotient chunk at the point.
pub proof fn law_hiding_rounds(p: PlainProof, pvs: Seq<int>, base: int, num_chunks: int, i: int)
    requires
        0 <= i < num_chunks,
        i < p.quotient_chunks.len(),
    ensures
        ({
            let r = hiding_rounds(p, pvs, base, num_chunks);
            let zeta = sampled_ext(before_zeta(p, base, pvs, true));
            let next = ered(zscale(zeta, two_adic_gen(base)));
            let t: int = if p.random_cap is Some {
                1
            } else {
                0
            };
            &&& r.len() == t + 2
            &&& p.random_cap is Some ==> r[0].0 == p.random_cap->0.deep_view()
            &&& p.random_cap is Some ==> r[0].1.len() == 1 && r[0].1[0].len() == 1
            &&& p.random_cap is Some ==> r[0].1[0][0] == (
                seq![zeta.0 as u64, zeta.1 as u64],
                exts_z(p.random->0@),
            )
            &&& r[t].0 == p.trace_cap.deep_view()
            &&& r[t].1.len() == 1 && r[t].1[0].len() == 2
            &&& r[t].1[0][0] == (seq![zeta.0 as u64, zeta.1 as u64], exts_z(p.trace_local@))
            &&& r[t].1[0][1] == (seq![next.0 as u64, next.1 as u64], exts_z(p.trace_next->0@))
            &&& r[t + 1].0 == p.quotient_cap.deep_view()
            &&& num_chunks <= p.quotient_chunks.len() ==> r[t + 1].1.len() == num_chunks
            &&& r[t + 1].1[i].len() == 1
            &&& r[t + 1].1[i][0] == (
                seq![zeta.0 as u64, zeta.1 as u64],
                exts_z(p.quotient_chunks@[i]@),
            )
        }),
{
}

/// The openings of a hiding proof are held against its rounds, its codewords and its low-degree test, on
/// the challenger behind its out-of-domain point.
pub proof fn law_hiding_check(
    params: FriParams,
    p: PlainProof,
    pvs: Seq<int>,
    base: int,
    num_chunks: int,
    state: Seq<u64>,
    input: Seq<u64>,
    output: Seq<u64>,
)
    requires
        ({
            let d = after_ext(before_zeta(p, base, pvs, true));
            &&& state.len() == d.state.len()
            &&& forall|i: int| 0 <= i < state.len() ==> #[trigger] state[i] == d.state[i] as u64
            &&& input.len() == d.input.len()
            &&& forall|i: int| 0 <= i < input.len() ==> #[trigger] input[i] == d.input[i] as u64
            &&& output.len() == d.output.len()
            &&& forall|i: int| 0 <= i < output.len() ==> #[trigger] output[i] == d.output[i] as u64
        }),
    ensures
        hiding_opened(params, p, pvs, base, num_chunks) == openings_hold(
            (
                params.log_blowup,
                params.log_final_poly_len,
                params.max_log_arity,
                params.num_queries,
                params.commit_pow_bits,
                params.query_pow_bits,
                params.cap_height,
            ),
            p.degree_bits,
            (
                hiding_rounds(p, pvs, base, num_chunks),
                (codewords_z(p.codewords@), fri_z(p.fri)),
                state,
                input,
                output,
            ),
        ),
{
    let d = after_ext(before_zeta(p, base, pvs, true));
    assert(u64s(d.state) =~= state);
    assert(u64s(d.input) =~= input);
    assert(u64s(d.output) =~= output);
}

/// The rounds of a query that folds pairs: every round has its own sibling and challenge, and the bit of
/// the index that it folds away.
pub proof fn law_pair_rounds(
    rounds: Seq<FoldRound>,
    openings: Seq<CommitOpening>,
    betas: Seq<Challenge>,
    index: int,
    log_global: int,
    r: int,
)
    requires
        rounds_of(rounds, openings, betas, index, log_global),
        0 <= r < openings.len(),
        index >= 0,
    ensures
        rounds.len() == openings.len(),
        rounds[r].sib == openings[r].sibling_values@[0],
        rounds[r].beta == betas[r],
        rounds[r].bit <==> (index / (pow2(r as nat) as int)) % 2 == 1,
{
    lemma_shr(index, r as nat);
    let x = rounds[r];
}

/// The fold groups of a query: the running evaluation and its sibling side by side, in the order of the
/// bit, with a path of the opening at the index without the folded bits.
pub proof fn law_fold_groups(
    groups: Seq<GroupOpening>,
    openings: Seq<CommitOpening>,
    rounds: Seq<FoldRound>,
    ro: (int, int),
    index: int,
    i: int,
)
    requires
        groups_are(groups, openings, rounds, ro, index),
        0 <= i < rounds.len(),
        index >= 0,
    ensures
        groups.len() == rounds.len(),
        ({
            let e = running(ro, rounds, i as nat);
            let s = rounds[i].sib@;
            &&& !rounds[i].bit ==> ints(groups[i].group@) == seq![e.0, e.1, s.0, s.1]
            &&& rounds[i].bit ==> ints(groups[i].group@) == seq![s.0, s.1, e.0, e.1]
        }),
        path_z(groups[i].path@) == index_path(
            openings[i].path@,
            index / (pow2((i + 1) as nat) as int),
        ),
{
    lemma_shr(index, (i + 1) as nat);
    let x = groups[i];
}

/// A round of any arity: its group is the evaluation so far among its siblings, at the slot that the low
/// bits of the index give; its points are those of the group; and what it folds to is the fold at its
/// challenge.
pub proof fn law_fold_data(
    d: FoldData,
    openings: Seq<CommitOpening>,
    betas: Seq<Challenge>,
    index: int,
    log_global: int,
    ro: (int, int),
    r: int,
)
    requires
        fold_data_is(d, openings, betas, index, log_global, ro, r),
        0 <= r < openings.len(),
        fold_at(openings, betas, index, log_global, ro, r as nat).0 >= 0,
    ensures
        fold_at(openings, betas, index, log_global, ro, 0) == (index, log_global, ro),
        ({
            let (at, height, e) = fold_at(openings, betas, index, log_global, ro, r as nat);
            let la = openings[r].log_arity as nat;
            let next = at / (pow2(la) as int);
            let group = group_z(
                e,
                views(openings[r].sibling_values@),
                at % (pow2(la) as int),
            );
            &&& views(d.evals@) == group
            &&& d.beta == betas[r]
            &&& ints(d.xs@) == fold_points(next, (height - la) as nat, la)
            &&& d.folded@ == folded(next, (height - la) as nat, la, betas[r]@, group)
            &&& fold_at(openings, betas, index, log_global, ro, (r + 1) as nat) == (
                next,
                height - la,
                d.folded@,
            )
        }),
{
    let (at, height, e) = fold_at(openings, betas, index, log_global, ro, r as nat);
    lemma_shr(at, openings[r].log_arity as nat);
}

/// The slots of a fold group: the evaluation at its own, the siblings in order round it.
pub proof fn law_group_slots(eval: (int, int), siblings: Seq<(int, int)>, slot: int, j: int)
    requires
        0 <= slot <= siblings.len(),
        0 <= j < siblings.len(),
    ensures
        group_z(eval, siblings, slot).len() == siblings.len() + 1,
        group_z(eval, siblings, slot)[slot] == eval,
        j < slot ==> group_z(eval, siblings, slot)[j] == siblings[j],
        j >= slot ==> group_z(eval, siblings, slot)[j + 1] == siblings[j],
{
}

/// The bits that the first rounds fold away are those of each in turn.
pub proof fn law_folded_bits(openings: Seq<CommitOpening>, n: nat)
    requires
        n < openings.len(),
    ensures
        sum_arities(openings, 0) == 0,
        sum_arities(openings, n + 1) == sum_arities(openings, n) + openings[n as int].log_arity,
{
}

/// A point squared once more is the square of what it was.
pub proof fn law_squared(x: (int, int), k: nat)
    ensures
        epow2k(x, 0) == ered(x),
        epow2k(x, k + 1) == ered(zmul(epow2k(x, k), epow2k(x, k))),
{
}

/// The weight of a quotient chunk: every other chunk multiplies it by the vanishing polynomial of that
/// chunk's coset at the point, over the same at the chunk's own shift; the chunk itself does not.
pub proof fn law_chunk_weight(x: (int, int), log_quotient: int, k: nat, i: int, n: nat)
    ensures
        chunk_weight(x, log_quotient, k, i, 0) == (1int, 0int),
        n == i ==> chunk_weight(x, log_quotient, k, i, n + 1) == chunk_weight(
            x,
            log_quotient,
            k,
            i,
            n,
        ),
        n != i ==> {
            let s = red(GENERATOR * pow_z(two_adic_gen(log_quotient), n));
            let t = red(GENERATOR * pow_z(two_adic_gen(log_quotient), i as nat));
            let at = epow2k(ered(zscale(x, finv_z(s))), k);
            let own = epow2k(ered(zscale((t, 0int), finv_z(s))), k);
            chunk_weight(x, log_quotient, k, i, n + 1) == ered(
                zmul(
                    chunk_weight(x, log_quotient, k, i, n),
                    zmul(
                        ered(zsub(at, (1int, 0int))),
                        einv_z(ered(zsub(own, (1int, 0int)))),
                    ),
                ),
            )
        },
{
}

/// The parameters of the frozen low-degree test.
pub proof fn law_frozen()
    ensures
        frozen().log_blowup == 4,
        frozen().log_final_poly_len == 0,
        frozen().max_log_arity == 4,
        frozen().num_queries == 96,
        frozen().commit_pow_bits == 0,
        frozen().query_pow_bits == 16,
        frozen().cap_height == 6,
{
}

} // verus!
