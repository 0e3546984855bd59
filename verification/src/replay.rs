//! The replay of a proof's transcript: the challenges and the query indices that it gives, and the
//! record that a transcript trace is built from.
use crate::challenger::{
    absorbed, after_ext, after_sample, duplex_ok, duplexed, fresh, lemma_duplexed, lemma_observed,
    lemma_sampled, observed, observed_all, observed_exts, ready, sampled, sampled_ext, views,
    Duplex, Sim,
};
use crate::cols::{count_of, lemma_np2, np2};
use crate::expr::{pair, satisfied, Env};
use crate::field::{cong, ints, lemma_red_bound, lemma_red_red, red, Challenge, P};
use crate::monolith::phase4a_complete::lemma_ft_input_len;
use crate::monolith::sponge::{
    bound, follows, ft_inputs, ft_polys, ft_trace, inputs_ok,
    law_full_transcript_complete, link_ok, squeezed, FullTranscriptAir,
};
use crate::plain_proof::{
    arities_z, cap_felts, cap_z, codewords_ok, commitment_felts, commitment_z, hiding_opened_exts,
    hiding_opened_z, instance_felts, instance_z, log_arities, opened_exts, opened_z, FriProof,
    PlainProof,
};
use crate::poseidon2::perm;
use crate::transcript::states;
use vstd::prelude::*;

verus! {

/// What a transcript takes in: the elements before each of the first three challenges, the caps of
/// the fold rounds, the final polynomial, the arities, the witness of the proof of work, and the
/// number of queries.
pub struct Script {
    pub instance: Seq<int>,
    pub commitment: Seq<int>,
    pub opened: Seq<(int, int)>,
    pub caps: Seq<Seq<int>>,
    pub final_poly: Seq<(int, int)>,
    pub arities: Seq<int>,
    pub pow: int,
    pub queries: nat,
}

/// The sponge that the first challenge is read from.
pub open spec fn at_alpha(s: Script) -> Duplex {
    observed_all(fresh(), s.instance)
}

/// The sponge that the out-of-domain point is read from.
pub open spec fn at_zeta(s: Script) -> Duplex {
    observed_all(after_ext(at_alpha(s)), s.commitment)
}

/// The sponge that the batching challenge is read from.
pub open spec fn at_alpha_fri(s: Script) -> Duplex {
    observed_exts(after_ext(at_zeta(s)), s.opened)
}

/// The sponge behind the first `n` fold rounds.
pub open spec fn rounds_done(s: Script, n: nat) -> Duplex
    decreases n,
{
    if n == 0 {
        after_ext(at_alpha_fri(s))
    } else {
        after_ext(observed_all(rounds_done(s, (n - 1) as nat), s.caps[n - 1]))
    }
}

/// The sponge that fold challenge `r` is read from.
pub open spec fn at_beta(s: Script, r: nat) -> Duplex {
    observed_all(rounds_done(s, r), s.caps[r as int])
}

/// The sponge that challenge `j` is read from.
pub open spec fn at_challenge(s: Script, j: int) -> Duplex {
    if j == 0 {
        at_alpha(s)
    } else if j == 1 {
        at_zeta(s)
    } else if j == 2 {
        at_alpha_fri(s)
    } else {
        at_beta(s, (j - 3) as nat)
    }
}

/// The sponge that the proof of work is read from.
pub open spec fn at_pow(s: Script) -> Duplex {
    let d = observed_exts(rounds_done(s, s.caps.len()), s.final_poly);
    observed(observed_all(d, s.arities), s.pow)
}

/// The sponge that query index `q` is read from.
pub open spec fn at_index(s: Script, q: nat) -> Duplex
    decreases q,
{
    if q == 0 {
        after_sample(at_pow(s))
    } else {
        after_sample(at_index(s, (q - 1) as nat))
    }
}

/// The record of a replay: the inputs and the absorbed counts of the permutations, the block and
/// the value of each challenge, and the block, the lane and the value of each query index.
#[derive(Debug)]
pub struct Replay {
    pub block_inputs: Vec<[u64; 8]>,
    pub counts: Vec<u8>,
    pub binds: Vec<usize>,
    pub challenges: Vec<Challenge>,
    pub index_binds: Vec<(usize, usize)>,
    pub index_felts: Vec<u64>,
}

impl Replay {
    /// The record is that of the script.
    pub open spec fn of(self, s: Script) -> bool {
        let end = at_index(s, s.queries);
        &&& states(self.block_inputs@) == end.blocks
        &&& self.counts@ == end.counts
        &&& self.binds.len() == 3 + s.caps.len()
        &&& self.challenges.len() == 3 + s.caps.len()
        &&& forall|j: int|
            #![trigger self.binds@[j]]
            #![trigger self.challenges@[j]]
            0 <= j < 3 + s.caps.len() ==> self.binds@[j] == ready(at_challenge(s, j)).blocks.len()
                - 1 && self.challenges@[j]@ == sampled_ext(at_challenge(s, j))
        &&& self.index_binds.len() == s.queries
        &&& self.index_felts.len() == s.queries
        &&& forall|q: int|
            #![trigger self.index_binds@[q]]
            #![trigger self.index_felts@[q]]
            0 <= q < s.queries ==> {
                let d = ready(at_index(s, q as nat));
                &&& self.index_binds@[q].0 == d.blocks.len() - 1
                &&& self.index_binds@[q].1 == d.output.len() - 1
                &&& self.index_felts@[q] == sampled(at_index(s, q as nat))
            }
    }

    /// The public values of the transcript: the challenges, then the index elements.
    pub open spec fn publics(self) -> Seq<int> {
        Seq::new(
            (2 * self.challenges.len() + self.index_felts.len()) as nat,
            |i: int|
                if i < 2 * self.challenges.len() {
                    if i % 2 == 0 {
                        self.challenges@[i / 2]@.0
                    } else {
                        self.challenges@[i / 2]@.1
                    }
                } else {
                    self.index_felts@[i - 2 * self.challenges.len()] as int
                },
        )
    }

    /// The schedule of the transcript.
    pub open spec fn air(self) -> FullTranscriptAir {
        FullTranscriptAir {
            counts: self.counts,
            binds: self.binds,
            index_binds: self.index_binds,
        }
    }
}

/// The elements of the caps of the fold rounds.
pub open spec fn caps_z(f: FriProof) -> Seq<Seq<int>> {
    Seq::new(f.commit_phase_commits@.len(), |r: int| cap_z(f.commit_phase_commits@[r]@))
}

/// The script of the low-degree test behind what went in before it.
pub open spec fn fri_script(
    instance: Seq<int>,
    commitment: Seq<int>,
    opened: Seq<(int, int)>,
    f: FriProof,
) -> Script {
    Script {
        instance,
        commitment,
        opened,
        caps: caps_z(f),
        final_poly: views(f.final_poly@),
        arities: arities_z(f),
        pow: f.query_pow_witness as int,
        queries: f.query_proofs@.len(),
    }
}

/// The script of a proof.
pub open spec fn script(p: PlainProof, base_degree_bits: int, pvs: Seq<int>) -> Script {
    fri_script(instance_z(p, base_degree_bits, pvs), commitment_z(p, false), opened_z(p), p.fri)
}

/// The script of a hiding proof.
pub open spec fn hiding_script(p: PlainProof, base_degree_bits: int, pvs: Seq<int>) -> Script {
    fri_script(instance_z(p, base_degree_bits, pvs), commitment_z(p, true), hiding_opened_z(p), p.fri)
}

/// Replays a transcript.
fn replay(instance: &Vec<u64>, commitment: &Vec<u64>, opened: &Vec<Challenge>, f: &FriProof) -> (r:
    Replay)
    ensures
        r.of(fri_script(ints(instance@), ints(commitment@), views(opened@), *f)),
{
    let ghost s = fri_script(ints(instance@), ints(commitment@), views(opened@), *f);
    let mut sim: Sim = Sim::new();
    sim.observe_all(instance.as_slice());
    let (alpha, b0) = sim.sample_ext();
    sim.observe_all(commitment.as_slice());
    let (zeta, b1) = sim.sample_ext();
    sim.observe_exts(opened.as_slice());
    let (alpha_fri, b2) = sim.sample_ext();
    let mut binds: Vec<usize> = vec![b0, b1, b2];
    let mut challenges: Vec<Challenge> = vec![alpha, zeta, alpha_fri];
    let n: usize = f.commit_phase_commits.len();
    for r in 0..n
        invariant
            n == f.commit_phase_commits.len(),
            s.caps == caps_z(*f),
            duplex_ok(sim@),
            sim@ == rounds_done(s, r as nat),
            binds.len() == 3 + r,
            challenges.len() == 3 + r,
            forall|j: int|
                #![trigger binds@[j]]
                #![trigger challenges@[j]]
                0 <= j < 3 + r ==> binds@[j] == ready(at_challenge(s, j)).blocks.len() - 1
                    && challenges@[j]@ == sampled_ext(at_challenge(s, j)),
    {
        let cap: Vec<u64> = cap_felts(&f.commit_phase_commits[r]);
        assert(ints(cap@) == s.caps[r as int]);
        sim.observe_all(cap.as_slice());
        assert(sim@ == at_challenge(s, 3 + r));
        let (beta, block) = sim.sample_ext();
        binds.push(block);
        challenges.push(beta);
    }
    sim.observe_exts(f.final_poly.as_slice());
    let arities: Vec<u64> = log_arities(f);
    sim.observe_all(arities.as_slice());
    sim.observe(f.query_pow_witness);
    let (_v, _b, _l) = sim.sample_base();
    let mut index_binds: Vec<(usize, usize)> = Vec::new();
    let mut index_felts: Vec<u64> = Vec::new();
    let m: usize = f.query_proofs.len();
    for q in 0..m
        invariant
            duplex_ok(sim@),
            sim@ == at_index(s, q as nat),
            index_binds.len() == q,
            index_felts.len() == q,
            forall|j: int|
                #![trigger index_binds@[j]]
                #![trigger index_felts@[j]]
                0 <= j < q ==> {
                    let d = ready(at_index(s, j as nat));
                    &&& index_binds@[j].0 == d.blocks.len() - 1
                    &&& index_binds@[j].1 == d.output.len() - 1
                    &&& index_felts@[j] == sampled(at_index(s, j as nat))
                },
    {
        let (felt, block, lane) = sim.sample_base();
        index_binds.push((block, lane));
        index_felts.push(felt);
    }
    Replay {
        block_inputs: sim.block_inputs,
        counts: sim.counts,
        binds,
        challenges,
        index_binds,
        index_felts,
    }
}

/// Replays the transcript of a proof.
pub fn sim_full(p: &PlainProof, base_degree_bits: usize, pvs: &[u64]) -> (r: Replay)
    requires
        p.fri.query_proofs.len() > 0,
    ensures
        r.of(script(*p, base_degree_bits as int, ints(pvs@))),
{
    let instance: Vec<u64> = instance_felts(p, base_degree_bits, pvs);
    let commitment: Vec<u64> = commitment_felts(p, false);
    let opened: Vec<Challenge> = opened_exts(p);
    replay(&instance, &commitment, &opened, &p.fri)
}

/// Replays the transcript of a hiding proof.
pub fn sim_full_hiding(p: &PlainProof, base_degree_bits: usize, pvs: &[u64]) -> (r: Replay)
    requires
        p.fri.query_proofs.len() > 0,
        codewords_ok(*p),
    ensures
        r.of(hiding_script(*p, base_degree_bits as int, ints(pvs@))),
{
    let instance: Vec<u64> = instance_felts(p, base_degree_bits, pvs);
    let commitment: Vec<u64> = commitment_felts(p, true);
    let opened: Vec<Challenge> = hiding_opened_exts(p);
    replay(&instance, &commitment, &opened, &p.fri)
}

/// A sponge that was reached from a fresh one, with a record that follows its schedule.
pub open spec fn recorded(d: Duplex) -> bool {
    &&& duplex_ok(d)
    &&& d.blocks.len() > 0 ==> follows(d.blocks, d.counts)
}

/// The record of `b` starts with that of `a`.
pub open spec fn grows(a: Duplex, b: Duplex) -> bool {
    &&& a.blocks.len() <= b.blocks.len()
    &&& forall|i: int| 0 <= i < a.blocks.len() ==> #[trigger] b.blocks[i] == a.blocks[i]
}

/// Something went in since the last sample.
pub open spec fn fed(d: Duplex) -> bool {
    d.input.len() > 0 || d.output.len() == 4
}

/// A permutation keeps the record in step.
proof fn lemma_step(d: Duplex)
    requires
        d.state.len() == 8,
        forall|i: int| 0 <= i < 8 ==> 0 <= #[trigger] d.state[i] < P,
        d.input.len() <= 4,
        forall|i: int| 0 <= i < d.input.len() ==> 0 <= #[trigger] d.input[i] < P,
        d.blocks.len() == d.counts.len(),
        forall|b: int| 0 <= b < d.blocks.len() ==> (#[trigger] d.blocks[b]).len() == 8,
        d.blocks.len() == 0 ==> d.state == fresh().state,
        d.blocks.len() > 0 ==> d.state == perm(d.blocks.last()) && follows(d.blocks, d.counts),
    ensures
        recorded(duplexed(d)),
        grows(d, duplexed(d)),
        duplexed(d).output.len() == 4,
{
    lemma_duplexed(d);
    let e = duplexed(d);
    let n = d.input.len() as int;
    let x = absorbed(d);
    let k = d.blocks.len() as int;
    assert(count_of(e.counts, k) == n);
    assert(e.blocks[k] == x);
    if n > 0 {
        lemma_red_red(d.state[4] + n);
    }
    assert(cong(x[4], d.state[4] + n));
    if k == 0 {
        assert(follows(e.blocks, e.counts));
    } else {
        assert(d.blocks.last() == d.blocks[k - 1]);
        assert forall|b: int|
            #![trigger e.blocks[b]]
            1 <= b < e.blocks.len() implies link_ok(
            perm(e.blocks[b - 1]),
            e.blocks[b],
            count_of(e.counts, b),
        ) by {
            if b < k {
                assert(e.blocks[b] == d.blocks[b]);
                assert(e.blocks[b - 1] == d.blocks[b - 1]);
                assert(count_of(e.counts, b) == count_of(d.counts, b));
            } else {
                assert(e.blocks[k - 1] == d.blocks[k - 1]);
                assert(link_ok(d.state, x, n));
            }
        }
        assert(e.blocks[0] == d.blocks[0]);
        assert(count_of(e.counts, 0) == count_of(d.counts, 0));
    }
}

proof fn lemma_grows(a: Duplex, b: Duplex, c: Duplex)
    requires
        grows(a, b),
        grows(b, c),
    ensures
        grows(a, c),
{
    assert forall|i: int| 0 <= i < a.blocks.len() implies #[trigger] c.blocks[i] == a.blocks[i] by {
        assert(b.blocks[i] == a.blocks[i]);
    }
}

proof fn lemma_recorded_observed(d: Duplex, v: int)
    requires
        recorded(d),
    ensures
        recorded(observed(d, v)),
        grows(d, observed(d, v)),
        fed(observed(d, v)),
{
    lemma_observed(d, v);
    lemma_red_bound(v);
    let e = Duplex { output: seq![], input: d.input.push(red(v)), ..d };
    if e.input.len() == 4 {
        lemma_step(e);
        lemma_grows(d, e, duplexed(e));
    }
}

proof fn lemma_recorded_all(d: Duplex, vs: Seq<int>)
    requires
        recorded(d),
    ensures
        recorded(observed_all(d, vs)),
        grows(d, observed_all(d, vs)),
        vs.len() > 0 ==> fed(observed_all(d, vs)),
    decreases vs.len(),
{
    if vs.len() > 0 {
        let e = observed_all(d, vs.drop_last());
        lemma_recorded_all(d, vs.drop_last());
        lemma_recorded_observed(e, vs.last());
        lemma_grows(d, e, observed_all(d, vs));
    }
}

proof fn lemma_recorded_exts(d: Duplex, xs: Seq<(int, int)>)
    requires
        recorded(d),
    ensures
        recorded(observed_exts(d, xs)),
        grows(d, observed_exts(d, xs)),
        xs.len() > 0 ==> fed(observed_exts(d, xs)),
    decreases xs.len(),
{
    if xs.len() > 0 {
        let e = observed_exts(d, xs.drop_last());
        lemma_recorded_exts(d, xs.drop_last());
        lemma_recorded_observed(e, xs.last().0);
        lemma_recorded_observed(observed(e, xs.last().0), xs.last().1);
        lemma_grows(d, e, observed(e, xs.last().0));
        lemma_grows(d, observed(e, xs.last().0), observed_exts(d, xs));
    }
}

proof fn lemma_recorded_sample(d: Duplex)
    requires
        recorded(d),
    ensures
        recorded(after_sample(d)),
        grows(d, ready(d)),
        grows(ready(d), after_sample(d)),
        grows(d, after_sample(d)),
        ready(d).blocks.len() > 0,
        1 <= ready(d).output.len() <= 4,
        sampled(d) == perm(ready(d).blocks.last())[ready(d).output.len() - 1],
        fed(d) ==> ready(d).output.len() == 4,
{
    lemma_sampled(d);
    if d.input.len() > 0 || d.output.len() == 0 {
        lemma_step(d);
    }
}

proof fn lemma_recorded_ext(d: Duplex)
    requires
        recorded(d),
        fed(d),
    ensures
        recorded(after_ext(d)),
        grows(d, after_ext(d)),
        grows(ready(d), after_ext(d)),
        ready(d).blocks.len() > 0,
        squeezed(perm(ready(d).blocks.last()), sampled_ext(d)),
{
    lemma_recorded_sample(d);
    let e = after_sample(d);
    lemma_recorded_sample(e);
    assert(ready(e) == e);
    lemma_grows(d, e, after_ext(d));
    lemma_grows(ready(d), e, after_ext(d));
}

/// Something goes in before every challenge.
pub open spec fn script_ok(s: Script) -> bool {
    &&& s.instance.len() > 0
    &&& s.commitment.len() > 0
    &&& s.opened.len() > 0
    &&& forall|r: int| 0 <= r < s.caps.len() ==> (#[trigger] s.caps[r]).len() > 0
}

proof fn lemma_fresh_recorded()
    ensures
        recorded(fresh()),
{
    let d = fresh();
    assert(d.output =~= d.state.take(0));
}

/// The sponge at a challenge.
spec fn challenge_ok(s: Script, j: int, end: Duplex) -> bool {
    let d = at_challenge(s, j);
    &&& ready(d).blocks.len() > 0
    &&& squeezed(perm(ready(d).blocks.last()), sampled_ext(d))
    &&& grows(ready(d), end)
}

proof fn lemma_rounds_done(s: Script, n: nat)
    requires
        script_ok(s),
        n <= s.caps.len(),
    ensures
        recorded(rounds_done(s, n)),
        forall|j: int| 0 <= j < 3 + n ==> #[trigger] challenge_ok(s, j, rounds_done(s, n)),
    decreases n,
{
    if n == 0 {
        let a = at_alpha(s);
        let z = at_zeta(s);
        let f = at_alpha_fri(s);
        lemma_fresh_recorded();
        lemma_recorded_all(fresh(), s.instance);
        lemma_recorded_ext(a);
        lemma_recorded_all(after_ext(a), s.commitment);
        lemma_recorded_ext(z);
        lemma_recorded_exts(after_ext(z), s.opened);
        lemma_recorded_ext(f);
        lemma_grows(ready(a), after_ext(a), z);
        lemma_grows(ready(a), z, after_ext(z));
        lemma_grows(ready(a), after_ext(z), f);
        lemma_grows(ready(a), f, after_ext(f));
        lemma_grows(ready(z), after_ext(z), f);
        lemma_grows(ready(z), f, after_ext(f));
        assert forall|j: int| 0 <= j < 3 implies #[trigger] challenge_ok(s, j, rounds_done(s, 0)) by {
            assert(j == 0 || j == 1 || j == 2);
        }
    } else {
        let k = (n - 1) as nat;
        let d = rounds_done(s, k);
        let b = at_beta(s, k);
        lemma_rounds_done(s, k);
        lemma_recorded_all(d, s.caps[n - 1]);
        lemma_recorded_ext(b);
        assert forall|j: int| 0 <= j < 3 + n implies #[trigger] challenge_ok(s, j, rounds_done(s, n)) by {
            if j < 2 + n {
                assert(challenge_ok(s, j, d));
                lemma_grows(ready(at_challenge(s, j)), d, b);
                lemma_grows(ready(at_challenge(s, j)), b, after_ext(b));
            } else {
                assert(at_challenge(s, j) == b);
            }
        }
    }
}

/// The sponge at a query index.
spec fn index_ok(s: Script, q: int, end: Duplex) -> bool {
    let d = at_index(s, q as nat);
    &&& ready(d).blocks.len() > 0
    &&& 1 <= ready(d).output.len() <= 4
    &&& sampled(d) == perm(ready(d).blocks.last())[ready(d).output.len() - 1]
    &&& grows(ready(d), end)
}

proof fn lemma_at_index(s: Script, q: nat)
    requires
        script_ok(s),
    ensures
        recorded(at_index(s, q)),
        at_index(s, q).blocks.len() > 0,
        forall|j: int| 0 <= j < 3 + s.caps.len() ==> #[trigger] challenge_ok(s, j, at_index(s, q)),
        forall|j: int| 0 <= j < q ==> #[trigger] index_ok(s, j, at_index(s, q)),
    decreases q,
{
    let end = at_index(s, q);
    if q == 0 {
        let r = rounds_done(s, s.caps.len());
        let d = observed_exts(r, s.final_poly);
        let e = observed_all(d, s.arities);
        let p = at_pow(s);
        lemma_rounds_done(s, s.caps.len());
        lemma_recorded_exts(r, s.final_poly);
        lemma_recorded_all(d, s.arities);
        lemma_recorded_observed(e, s.pow);
        lemma_recorded_sample(p);
        lemma_grows(r, d, e);
        lemma_grows(r, e, p);
        lemma_grows(r, p, end);
        assert forall|j: int| 0 <= j < 3 + s.caps.len() implies #[trigger] challenge_ok(s, j, end) by {
            assert(challenge_ok(s, j, r));
            lemma_grows(ready(at_challenge(s, j)), r, end);
        }
    } else {
        let k = (q - 1) as nat;
        let d = at_index(s, k);
        lemma_at_index(s, k);
        lemma_recorded_sample(d);
        assert forall|j: int| 0 <= j < 3 + s.caps.len() implies #[trigger] challenge_ok(s, j, end) by {
            assert(challenge_ok(s, j, d));
            lemma_grows(ready(at_challenge(s, j)), d, end);
        }
        assert forall|j: int| 0 <= j < q implies #[trigger] index_ok(s, j, end) by {
            if j < k {
                assert(index_ok(s, j, d));
                lemma_grows(ready(at_index(s, j as nat)), d, end);
            }
        }
    }
}

/// A record that follows its schedule still does so with the blocks that fill it up to a power of
/// two.
proof fn lemma_padded(inputs: Seq<Seq<int>>, counts: Seq<u8>)
    requires
        follows(inputs, counts),
        inputs.len() == counts.len(),
        inputs_ok(inputs),
    ensures
        follows(ft_inputs(inputs), counts),
        inputs_ok(ft_inputs(inputs)),
        forall|b: int| 0 <= b < inputs.len() ==> #[trigger] ft_inputs(inputs)[b] == inputs[b],
        ft_inputs(inputs).len() == np2(inputs.len() as int),
{
    let all = ft_inputs(inputs);
    lemma_np2(inputs.len() as int);
    assert(all[0] == inputs[0]);
    assert forall|b: int|
        #![trigger all[b]]
        1 <= b < all.len() implies link_ok(perm(all[b - 1]), all[b], count_of(counts, b)) by {
        if b < inputs.len() {
            assert(all[b] == inputs[b] && all[b - 1] == inputs[b - 1]);
        } else {
            assert(all[b] == perm(all[b - 1]));
        }
    }
    assert forall|b: int| 0 <= b < all.len() implies (#[trigger] all[b]).len() == 8 by {
        lemma_ft_input_len(inputs, b as nat);
    }
}

/// The public values start with the challenges and the index elements of a replay.
pub open spec fn starts_with(pv: Seq<int>, r: Replay) -> bool {
    &&& forall|j: int|
        #![trigger r.challenges@[j]]
        0 <= j < r.challenges.len() ==> pair(pv, 2 * j) == r.challenges@[j]@
    &&& forall|q: int|
        #![trigger r.index_felts@[q]]
        0 <= q < r.index_felts.len() ==> pv[2 * r.challenges.len() + q] == r.index_felts@[q]
}

/// The record of a replay follows its schedule, and public values that start with what it gave are
/// bound to it.
pub proof fn law_replay_bound(r: Replay, s: Script, pv: Seq<int>)
    requires
        r.of(s),
        script_ok(s),
        starts_with(pv, r),
    ensures
        ({
            let inputs = states(r.block_inputs@);
            &&& inputs.len() == r.counts.len()
            &&& inputs_ok(inputs)
            &&& inputs_ok(ft_inputs(inputs))
            &&& ft_inputs(inputs).len() == np2(r.counts.len() as int)
            &&& follows(ft_inputs(inputs), r.counts@)
            &&& bound(r.air(), ft_inputs(inputs), pv)
        }),
        forall|j: int| 0 <= j < r.binds.len() ==> (#[trigger] r.binds@[j]) < r.air().padded_z(),
        forall|j: int|
            0 <= j < r.index_binds.len() ==> (#[trigger] r.index_binds@[j]).0 < r.air().padded_z()
                && r.index_binds@[j].1 < 8,
        forall|q: int| 0 <= q < r.index_felts.len() ==> (#[trigger] r.index_felts@[q]) < P,
{
    let end = at_index(s, s.queries);
    let air = r.air();
    lemma_at_index(s, s.queries);
    lemma_padded(end.blocks, end.counts);
    lemma_np2(end.blocks.len() as int);
    let all = ft_inputs(end.blocks);
    assert forall|j: int| 0 <= j < r.binds.len() implies (#[trigger] r.binds@[j])
        < air.padded_z() && squeezed(perm(all[r.binds@[j] as int]), pair(pv, 2 * j)) by {
        assert(challenge_ok(s, j, end));
        let d = ready(at_challenge(s, j));
        let b = r.binds@[j] as int;
        assert(b == d.blocks.len() - 1);
        assert(end.blocks[b] == d.blocks[b]);
        assert(all[b] == end.blocks[b]);
        assert(r.challenges@[j]@ == sampled_ext(at_challenge(s, j)));
    }
    assert forall|j: int| 0 <= j < r.index_binds.len() implies (#[trigger] r.index_binds@[j]).0
        < air.padded_z() && r.index_binds@[j].1 < 8 && cong(
        perm(all[r.index_binds@[j].0 as int])[r.index_binds@[j].1 as int],
        pv[2 * r.binds.len() + j],
    ) && r.index_felts@[j] < P by {
        assert(index_ok(s, j, end));
        let d = ready(at_index(s, j as nat));
        let b = r.index_binds@[j].0 as int;
        assert(b == d.blocks.len() - 1);
        assert(end.blocks[b] == d.blocks[b]);
        assert(all[b] == end.blocks[b]);
        assert(r.index_felts@[j] == sampled(at_index(s, j as nat)));
        lemma_at_index(s, j as nat);
        lemma_sampled(at_index(s, j as nat));
    }
    assert forall|q: int| 0 <= q < r.index_felts.len() implies (#[trigger] r.index_felts@[q]) < P by {
        assert(r.index_binds@[q].1 < 8);
    }
    assert(bound(air, all, pv));
}

/// The trace that is built from the record of a replay meets the constraints of the transcript, for
/// the challenges and the query indices that the replay gave.
pub proof fn law_replay_traces(r: Replay, s: Script)
    requires
        r.of(s),
        script_ok(s),
        np2(r.counts.len() as int) * 32 <= usize::MAX,
        2 * r.binds.len() + r.index_binds.len() + 100 <= usize::MAX,
    ensures
        r.air().wf(),
        satisfied(
            |env: Env| ft_polys(env, r.binds.len() as int, r.index_binds@),
            ft_trace(states(r.block_inputs@)),
            r.air().cols_z(),
            r.publics(),
        ),
{
    let pv = r.publics();
    assert forall|j: int| 0 <= j < r.challenges.len() implies pair(pv, 2 * j) == (
    #[trigger] r.challenges@[j])@ by {
        assert((2 * j) / 2 == j && (2 * j + 1) / 2 == j && (2 * j) % 2 == 0 && (2 * j + 1) % 2 == 1);
    }
    law_replay_bound(r, s, pv);
    assert(r.air().wf());
    law_full_transcript_complete(r.air(), ft_inputs(states(r.block_inputs@)), pv);
}

} // verus!
