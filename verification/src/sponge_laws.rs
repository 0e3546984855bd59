//! Laws on the transcript: what an element does to the sponge, what a sample takes from it, and in what
//! order a proof goes through it.
use crate::challenger::{
    after_ext, after_sample, fresh, observed, observed_all, observed_exts, sampled, sampled_ext,
    views, Duplex,
};
use crate::field::red;
use crate::fri_query::FriParams;
use crate::fri_verify::{after_witness, rounds_run, witness_ok};
use crate::plain_proof::{
    arities_z, cap_z, commitment_z, hiding_opened_z, instance_z, opened_z, FriProof, PlainProof,
};
use crate::poseidon2::perm;
use crate::replay::{
    at_beta, at_challenge, at_index, at_pow, hiding_script, rounds_done, script, Replay, Script,
};
use vstd::arithmetic::power2::pow2;
use vstd::prelude::*;

verus! {

/// An element waits behind those that wait already, and what was left to squeeze is gone; the fourth is
/// permuted with the three before it in the rate lanes, and four more in the first capacity lane.
pub proof fn law_observe(d: Duplex, v: int)
    requires
        d.state.len() == 8,
        d.input.len() < 4,
    ensures
        d.input.len() < 3 ==> {
            &&& observed(d, v).state == d.state
            &&& observed(d, v).input == d.input.push(red(v))
            &&& observed(d, v).output.len() == 0
            &&& observed(d, v).blocks == d.blocks
            &&& observed(d, v).counts == d.counts
        },
        d.input.len() == 3 ==> {
            let block = seq![
                d.input[0],
                d.input[1],
                d.input[2],
                red(v),
                red(d.state[4] + 4),
                d.state[5],
                d.state[6],
                d.state[7],
            ];
            &&& observed(d, v).state == perm(block)
            &&& observed(d, v).input.len() == 0
            &&& observed(d, v).output == perm(block).take(4)
            &&& observed(d, v).blocks == d.blocks.push(block)
            &&& observed(d, v).counts == d.counts.push(4u8)
        },
{
    if d.input.len() == 3 {
        let e = Duplex { output: seq![], input: d.input.push(red(v)), ..d };
        assert(crate::challenger::absorbed(e) =~= seq![
            d.input[0],
            d.input[1],
            d.input[2],
            red(v),
            red(d.state[4] + 4),
            d.state[5],
            d.state[6],
            d.state[7],
        ]);
    }
}

/// A sample is the last element that is left to squeeze, and is gone behind it.
pub proof fn law_sample_left(d: Duplex)
    requires
        d.input.len() == 0,
        d.output.len() > 0,
    ensures
        sampled(d) == d.output[d.output.len() - 1],
        after_sample(d).output == d.output.take(d.output.len() - 1),
        after_sample(d).state == d.state,
        after_sample(d).input.len() == 0,
        after_sample(d).blocks == d.blocks,
{
    assert(d.output.drop_last() =~= d.output.take(d.output.len() - 1));
}

/// Where nothing is left and nothing waits, a sample is the fourth lane of the permuted state; three more
/// are left behind it.
pub proof fn law_sample_empty(d: Duplex)
    requires
        d.input.len() == 0,
        d.output.len() == 0,
        perm(d.state).len() == 8,
    ensures
        sampled(d) == perm(d.state)[3],
        after_sample(d).state == perm(d.state),
        after_sample(d).output == perm(d.state).take(3),
        after_sample(d).blocks == d.blocks.push(d.state),
{
    assert(perm(d.state).take(4).drop_last() =~= perm(d.state).take(3));
}

/// Where elements wait, a sample is the fourth lane of the permutation of the waiting elements, zeros
/// behind them, and their number in the first capacity lane.
pub proof fn law_sample_waiting(d: Duplex, s: Seq<int>)
    requires
        d.state.len() == 8,
        0 < d.input.len() <= 4,
        s.len() == 8,
        forall|i: int| 0 <= i < d.input.len() ==> s[i] == d.input[i],
        forall|i: int| d.input.len() <= i < 4 ==> s[i] == 0,
        s[4] == red(d.state[4] + d.input.len()),
        s[5] == d.state[5],
        s[6] == d.state[6],
        s[7] == d.state[7],
        perm(s).len() == 8,
    ensures
        sampled(d) == perm(s)[3],
        after_sample(d).state == perm(s),
        after_sample(d).input.len() == 0,
        after_sample(d).output == perm(s).take(3),
        after_sample(d).blocks == d.blocks.push(s),
{
    assert(crate::challenger::absorbed(d) =~= s);
    assert(perm(s).take(4).drop_last() =~= perm(s).take(3));
}

/// Elements go in one by one, an extension element with both its coordinates.
pub proof fn law_observe_all(d: Duplex, vs: Seq<int>, v: int, xs: Seq<(int, int)>, x: (int, int))
    ensures
        observed_all(d, Seq::empty()) == d,
        observed_all(d, vs.push(v)) == observed(observed_all(d, vs), v),
        observed_exts(d, Seq::empty()) == d,
        observed_exts(d, xs.push(x)) == observed(observed(observed_exts(d, xs), x.0), x.1),
{
    assert(vs.push(v).drop_last() =~= vs);
    assert(xs.push(x).drop_last() =~= xs);
}

/// What goes in in two parts goes in as one.
pub proof fn law_observe_parts(d: Duplex, a: Seq<int>, b: Seq<int>)
    ensures
        observed_all(d, a + b) == observed_all(observed_all(d, a), b),
    decreases b.len(),
{
    if b.len() == 0 {
        assert(a + b =~= a);
    } else {
        assert((a + b).drop_last() =~= a + b.drop_last());
        law_observe_parts(d, a, b.drop_last());
    }
}

/// A sampled extension element is two samples in turn.
pub proof fn law_sample_ext(d: Duplex)
    ensures
        sampled_ext(d).0 == sampled(d),
        sampled_ext(d).1 == sampled(after_sample(d)),
        after_ext(d) == after_sample(after_sample(d)),
{
}

/// The script of a proof: what goes in before each challenge, and how many indices are read.
pub proof fn law_script(p: PlainProof, base: int, pvs: Seq<int>, r: int)
    requires
        0 <= r < p.fri.commit_phase_commits@.len(),
    ensures
        ({
            let s = script(p, base, pvs);
            &&& s.instance == instance_z(p, base, pvs)
            &&& s.commitment == commitment_z(p, false)
            &&& s.opened == opened_z(p)
            &&& s.caps.len() == p.fri.commit_phase_commits@.len()
            &&& s.caps[r] == cap_z(p.fri.commit_phase_commits@[r]@)
            &&& s.final_poly == views(p.fri.final_poly@)
            &&& s.arities == arities_z(p.fri)
            &&& s.pow == p.fri.query_pow_witness
            &&& s.queries == p.fri.query_proofs@.len()
        }),
        ({
            let s = script(p, base, pvs);
            let h = hiding_script(p, base, pvs);
            &&& h.instance == s.instance
            &&& h.commitment == commitment_z(p, true)
            &&& h.opened == hiding_opened_z(p)
            &&& h.caps == s.caps
            &&& h.final_poly == s.final_poly
            &&& h.arities == s.arities
            &&& h.pow == s.pow
            &&& h.queries == s.queries
        }),
{
}

/// The order of a transcript: the instance, the commitments, the opened values, every cap, each with its
/// challenge behind it, then the final polynomial, the arities, the proof of work, and the indices.
pub proof fn law_script_order(s: Script, r: nat, q: nat)
    requires
        r < s.caps.len(),
    ensures
        at_challenge(s, 0) == observed_all(fresh(), s.instance),
        at_challenge(s, 1) == observed_all(after_ext(at_challenge(s, 0)), s.commitment),
        at_challenge(s, 2) == observed_exts(after_ext(at_challenge(s, 1)), s.opened),
        at_challenge(s, (3 + r) as int) == observed_all(after_ext(at_challenge(s, (2 + r) as int)), s.caps[r as int]),
        at_pow(s) == observed(
            observed_all(
                observed_exts(after_ext(at_challenge(s, (2 + s.caps.len()) as int)), s.final_poly),
                s.arities,
            ),
            s.pow,
        ),
        at_index(s, 0) == after_sample(at_pow(s)),
        at_index(s, q + 1) == after_sample(at_index(s, q)),
{
    reveal_with_fuel(rounds_done, 2);
    let n = s.caps.len();
    assert(rounds_done(s, n) == after_ext(at_beta(s, (n - 1) as nat)));
    assert(at_challenge(s, (2 + n) as int) == at_beta(s, (n - 1) as nat));
}

/// A replay gives every challenge and every index element of its script, each read where the script has
/// it.
pub proof fn law_replay_values(r: Replay, s: Script, j: int, q: int)
    requires
        r.of(s),
        0 <= j < 3 + s.caps.len(),
        0 <= q < s.queries,
    ensures
        r.challenges.len() == 3 + s.caps.len(),
        r.index_felts.len() == s.queries,
        r.challenges@[j]@ == sampled_ext(at_challenge(s, j)),
        r.index_felts@[q] == sampled(at_index(s, q as nat)),
        r.publics().len() == 2 * r.challenges.len() + s.queries,
        r.publics()[2 * j] == r.challenges@[j]@.0,
        r.publics()[2 * j + 1] == r.challenges@[j]@.1,
        r.publics()[2 * r.challenges.len() + q] == r.index_felts@[q],
{
    let c = r.challenges@[j];
    let i = r.index_felts@[q];
}

/// A proof of work is accepted exactly where none is asked for, or the sample behind its witness has as
/// many zeros at its end as are asked for; one that is not asked for leaves the sponge as it is.
pub proof fn law_witness(d: Duplex, bits: int, witness: int)
    requires
        bits >= 0,
    ensures
        witness_ok(d, bits, witness) <==> bits == 0 || sampled(observed(d, witness)) % (pow2(
            bits as nat,
        ) as int) == 0,
        bits == 0 ==> after_witness(d, bits, witness) == d,
        bits > 0 ==> after_witness(d, bits, witness) == after_sample(observed(d, witness)),
{
}

/// The commit rounds in turn: a cap goes in, its proof of work is held against what is asked for, and the
/// challenge is read behind it.
pub proof fn law_commit_round(d: Duplex, params: FriParams, f: FriProof, n: nat)
    ensures
        rounds_run(d, params, f, 0).fail is None,
        rounds_run(d, params, f, 0).sponge == d,
        rounds_run(d, params, f, 0).betas.len() == 0,
        ({
            let before = rounds_run(d, params, f, n);
            let run = rounds_run(d, params, f, n + 1);
            let seen = observed_all(before.sponge, cap_z(f.commit_phase_commits@[n as int]@));
            let w = f.commit_pow_witnesses@[n as int] as int;
            let bits = params.commit_pow_bits as int;
            &&& run.fail is None <==> before.fail is None && witness_ok(seen, bits, w)
            &&& run.fail is None ==> run.betas == before.betas.push(
                sampled_ext(after_witness(seen, bits, w)),
            )
            &&& run.fail is None ==> run.sponge == after_ext(after_witness(seen, bits, w))
        }),
{
}

} // verus!
