//! The openings of a hiding proof, as the commitment scheme is handed them, and its verdict on them.
use crate::aggregate::inputs::{HidingMmcs, HidingPcs, Transcript};
use crate::aggregate::window::copy_row;
use crate::challenger::{after_ext, sampled_ext, Challenger, ChallengerState};
use crate::cols::is_pow2;
use crate::decode::{
    codewords_z, copy_digests, copy_rows, exts_z, fri_z, query_z, batch_z, lists_z, step_z, CapZ,
    ExtsZ, FriZ, RawExt, RawFri, RawPath, RawQuery,
};
use crate::field::{ered, ints, two_adic_gen, zscale, Challenge, P};
use crate::fri_input::{OpenedBatch, OpenedMatrix};
use crate::fri_query::FriParams;
use crate::merkle::Digest;
use crate::mmcs::{Compression, Pair, Sponge};
use crate::plain_proof::{arities_z, PlainProof, QueryProof};
use crate::stark::{
    all_caps_ok, before_zeta, chunk_count, opened_once, quotient_mats, rounds_are,
    rounds_before_trace,
};
use p3_commit::{ExtensionMmcs, Mmcs, Pcs};
use p3_dft::Radix2DitParallel;
use p3_field::coset::TwoAdicMultiplicativeCoset;
use p3_field::PrimeCharacteristicRing;
use p3_fri::FriParameters;
use p3_goldilocks::{default_goldilocks_poseidon2_8, Goldilocks};
use postcard::{from_bytes, to_allocvec};
use rand::SeedableRng;
use rand_chacha::ChaCha20Rng;
use std::iter::repeat;
use vstd::arithmetic::power2::pow2;
use vstd::prelude::*;

verus! {

/// The points of a matrix with the values claimed there.
pub type RawMatrix = Vec<(RawExt, Vec<RawExt>)>;

/// The rounds: a cap each, with its matrices.
pub type RawRounds = Vec<(Vec<Digest>, Vec<RawMatrix>)>;

/// The random codewords, with the low-degree test.
pub type RawOpening = (Vec<Vec<Vec<Vec<RawExt>>>>, RawFri);

/// The same as sequences.
pub type MatrixZ = Seq<(Seq<u64>, ExtsZ)>;

pub type RoundsZ = Seq<(CapZ, Seq<MatrixZ>)>;

pub type OpeningZ = (Seq<Seq<Seq<ExtsZ>>>, FriZ);

/// The parameters of the low-degree test.
pub type ParamsZ = (usize, usize, usize, usize, usize, usize, usize);

/// What the commitment scheme is handed: the rounds, the opening proof, and the state of the challenger
/// with its waiting and its squeezable elements.
pub type RawCheck = (RawRounds, RawOpening, [u64; 8], Vec<u64>, Vec<u64>);

pub type CheckZ = (RoundsZ, OpeningZ, Seq<u64>, Seq<u64>, Seq<u64>);

/// The same in the types of the commitment scheme, but for the domains.
pub type Handed = (
    Vec<(<HidingMmcs as Mmcs<Goldilocks>>::Commitment, Vec<Vec<(Pair, Vec<Pair>)>>)>,
    <HidingPcs as Pcs<Pair, Transcript>>::Proof,
    [Goldilocks; 8],
    Vec<Goldilocks>,
    Vec<Goldilocks>,
);

/// Whether the commitment scheme accepts openings under its parameters, of matrices over the domain of
/// `2^log_size` points.
pub uninterp spec fn openings_hold(
    params: ParamsZ,
    log_size: usize,
    check: CheckZ,
) -> bool;

/// The rounds hold at least one matrix, and their caps are Merkle caps.
pub open spec fn rounds_ok(rounds: RoundsZ) -> bool {
    &&& rounds.len() > 0
    &&& rounds[0].1.len() > 0
    &&& forall|i: int| 0 <= i < rounds.len() ==> is_pow2((#[trigger] rounds[i]).0.len() as int)
}

/// The caps of a low-degree test are Merkle caps.
pub open spec fn commits_ok(f: FriZ) -> bool {
    forall|i: int| 0 <= i < f.0.len() ==> is_pow2((#[trigger] f.0[i]).len() as int)
}

/// The rounds of the first query.
pub open spec fn first_rounds(f: FriZ) -> int {
    if f.2.len() == 0 {
        0
    } else {
        f.2[0].1.len() as int
    }
}

/// `Pcs::verify` of p3-commit, as `HidingFriPcs` of p3-fri has it, for the hiding trees of four-element
/// digests over the width-eight permutation, on a challenger with the given state and buffers. The
/// values are handed over in their encoding, so one with an element that is not canonical is refused.
/// The sources of randomness that the scheme holds have no part in a check. Whether it accepts depends
/// on the arguments alone; it is named and not stated. The outside function panics on caps whose
/// length is no power of two, on domains that the field does not have, and on sizes that overflow.
#[verifier::external_body]
fn hiding_verify(
    log_blowup: usize,
    log_final_poly_len: usize,
    max_log_arity: usize,
    num_queries: usize,
    commit_proof_of_work_bits: usize,
    query_proof_of_work_bits: usize,
    cap_height: usize,
    log_size: usize,
    raw: &RawCheck,
) -> (r: Option<()>)
    requires
        rounds_ok(raw.deep_view().0),
        commits_ok(raw.deep_view().1.1),
        log_size <= 32,
        log_size + log_blowup < usize::BITS,
        255 * first_rounds(raw.deep_view().1.1) + log_blowup + log_final_poly_len <= usize::MAX,
        pow2(log_final_poly_len as nat) <= usize::MAX,
        pow2(commit_proof_of_work_bits as nat) <= P,
        commit_proof_of_work_bits < usize::BITS,
        pow2(query_proof_of_work_bits as nat) <= P,
        query_proof_of_work_bits < usize::BITS,
        raw.3.len() < 4,
    ensures
        r is Some == openings_hold(
            (
                log_blowup,
                log_final_poly_len,
                max_log_arity,
                num_queries,
                commit_proof_of_work_bits,
                query_proof_of_work_bits,
                cap_height,
            ),
            log_size,
            raw.deep_view(),
        ),
{
    let (coms, proof, sponge_state, input_buffer, output_buffer): Handed =
        from_bytes(&to_allocvec(raw).unwrap()).ok()?;
    let tree = HidingMmcs::new(
        Sponge::new(default_goldilocks_poseidon2_8()),
        Compression::new(default_goldilocks_poseidon2_8()),
        cap_height, ChaCha20Rng::seed_from_u64(0));
    HidingPcs::new(Radix2DitParallel::default(), tree.clone(), FriParameters {
        log_blowup, log_final_poly_len, max_log_arity, num_queries, commit_proof_of_work_bits,
        query_proof_of_work_bits, mmcs: ExtensionMmcs::new(tree),
    }, 0, ChaCha20Rng::seed_from_u64(0)).verify(
        coms.into_iter().map(|(c, m)| (c, repeat(TwoAdicMultiplicativeCoset::new(
            Goldilocks::ONE, log_size).unwrap()).zip(m).collect())).collect(),
        &proof, &mut Transcript { sponge_state, input_buffer, output_buffer,
            permutation: default_goldilocks_poseidon2_8() }).ok()
}

fn raw_exts(v: &Vec<Challenge>) -> (r: Vec<RawExt>)
    ensures
        r.deep_view() == exts_z(v@),
{
    let n: usize = v.len();
    let mut r: Vec<RawExt> = Vec::new();
    for i in 0..n
        invariant
            n == v.len(),
            r.len() == i,
            forall|j: int|
                0 <= j < i ==> (#[trigger] r@[j])@ == seq![v@[j].c0, v@[j].c1],
    {
        let e: RawExt = [v[i].c0, v[i].c1];
        assert(e@ =~= seq![v@[i as int].c0, v@[i as int].c1]);
        r.push(e);
    }
    proof {
        let z = r.deep_view();
        assert forall|i: int| 0 <= i < n implies #[trigger] z[i] == exts_z(v@)[i] by {
            assert(z[i] =~= r@[i]@);
        }
        assert(z =~= exts_z(v@));
    }
    r
}

fn raw_lists(v: &Vec<Vec<Challenge>>) -> (r: Vec<Vec<RawExt>>)
    ensures
        r.deep_view() == lists_z(v@),
{
    let n: usize = v.len();
    let mut r: Vec<Vec<RawExt>> = Vec::new();
    for i in 0..n
        invariant
            n == v.len(),
            r.len() == i,
            forall|j: int| 0 <= j < i ==> (#[trigger] r@[j]).deep_view() == exts_z(v@[j]@),
    {
        r.push(raw_exts(&v[i]));
    }
    assert(r.deep_view() =~= lists_z(v@));
    r
}

fn raw_codewords(v: &Vec<Vec<Vec<Vec<Challenge>>>>) -> (r: Vec<Vec<Vec<Vec<RawExt>>>>)
    ensures
        r.deep_view() == codewords_z(v@),
{
    let n: usize = v.len();
    let mut r: Vec<Vec<Vec<Vec<RawExt>>>> = Vec::new();
    for i in 0..n
        invariant
            n == v.len(),
            r.len() == i,
            forall|j: int| 0 <= j < i ==> (#[trigger] r@[j]).deep_view() == codewords_z(v@)[j],
    {
        let m: usize = v[i].len();
        let mut s: Vec<Vec<Vec<RawExt>>> = Vec::new();
        for k in 0..m
            invariant
                i < v.len(),
                m == v@[i as int].len(),
                s.len() == k,
                forall|j: int|
                    0 <= j < k ==> (#[trigger] s@[j]).deep_view() == lists_z(v@[i as int]@[j]@),
        {
            s.push(raw_lists(&v[i][k]));
        }
        assert(s.deep_view() =~= codewords_z(v@)[i as int]);
        r.push(s);
    }
    assert(r.deep_view() =~= codewords_z(v@));
    r
}

fn raw_query(q: &QueryProof) -> (r: RawQuery)
    ensures
        r.deep_view() == query_z(*q),
{
    let n: usize = q.input_proof.len();
    let mut batches: Vec<(Vec<Vec<u64>>, RawPath)> = Vec::new();
    for i in 0..n
        invariant
            n == q.input_proof.len(),
            batches.len() == i,
            forall|j: int|
                0 <= j < i ==> (#[trigger] batches@[j]).deep_view() == batch_z(q.input_proof@[j]),
    {
        let b = &q.input_proof[i];
        let o: (Vec<Vec<u64>>, RawPath) = (
            copy_rows(&b.opened_values),
            (copy_rows(&b.salts), copy_digests(&b.path)),
        );
        assert(o.deep_view() == batch_z(q.input_proof@[i as int]));
        batches.push(o);
    }
    let m: usize = q.commit_phase_openings.len();
    let mut steps: Vec<(u8, Vec<RawExt>, RawPath)> = Vec::new();
    for i in 0..m
        invariant
            m == q.commit_phase_openings.len(),
            steps.len() == i,
            forall|j: int|
                0 <= j < i ==> (#[trigger] steps@[j]).deep_view() == step_z(
                    q.commit_phase_openings@[j],
                ),
    {
        let b = &q.commit_phase_openings[i];
        let o: (u8, Vec<RawExt>, RawPath) = (
            b.log_arity,
            raw_exts(&b.sibling_values),
            (copy_rows(&b.salts), copy_digests(&b.path)),
        );
        assert(o.deep_view() == step_z(q.commit_phase_openings@[i as int]));
        steps.push(o);
    }
    assert(batches.deep_view() =~= query_z(*q).0);
    assert(steps.deep_view() =~= query_z(*q).1);
    (batches, steps)
}

/// The opening proof of a hiding proof.
pub open spec fn opening_z(p: PlainProof) -> OpeningZ {
    (codewords_z(p.codewords@), fri_z(p.fri))
}

fn copy_caps(v: &Vec<Vec<Digest>>) -> (r: Vec<Vec<Digest>>)
    ensures
        r.deep_view() == v.deep_view(),
{
    let n: usize = v.len();
    let mut r: Vec<Vec<Digest>> = Vec::new();
    for i in 0..n
        invariant
            n == v.len(),
            r.len() == i,
            forall|j: int| 0 <= j < i ==> (#[trigger] r@[j])@ == v@[j]@,
    {
        r.push(copy_digests(&v[i]));
    }
    proof {
        assert forall|j: int| 0 <= j < n implies #[trigger] r.deep_view()[j] == v.deep_view()[j] by {
            assert(r@[j]@ == v@[j]@);
        }
        assert(r.deep_view() =~= v.deep_view());
    }
    r
}

fn raw_opening(p: &PlainProof) -> (r: RawOpening)
    ensures
        r.deep_view() == opening_z(*p),
{
    let n: usize = p.fri.query_proofs.len();
    let mut queries: Vec<RawQuery> = Vec::new();
    for i in 0..n
        invariant
            n == p.fri.query_proofs.len(),
            queries.len() == i,
            forall|j: int|
                0 <= j < i ==> (#[trigger] queries@[j]).deep_view() == query_z(
                    p.fri.query_proofs@[j],
                ),
    {
        queries.push(raw_query(&p.fri.query_proofs[i]));
    }
    let pow: Vec<u64> = copy_row(&p.fri.commit_pow_witnesses);
    let r: RawOpening = (
        raw_codewords(&p.codewords),
        (
            copy_caps(&p.fri.commit_phase_commits),
            pow,
            queries,
            raw_exts(&p.fri.final_poly),
            p.fri.query_pow_witness,
        ),
    );
    proof {
        assert(queries.deep_view() =~= fri_z(p.fri).2);
        assert(pow.deep_view() =~= p.fri.commit_pow_witnesses@);
    }
    r
}

/// The points of a matrix.
pub open spec fn matrix_z(m: OpenedMatrix) -> MatrixZ {
    Seq::new(
        m.points.len() as nat,
        |i: int| (seq![m.points@[i].0.c0, m.points@[i].0.c1], exts_z(m.points@[i].1@)),
    )
}

/// The rounds with their matrices.
pub open spec fn rounds_z(coms: Seq<OpenedBatch>) -> RoundsZ {
    Seq::new(
        coms.len(),
        |i: int|
            (
                coms[i].cap.deep_view(),
                Seq::new(coms[i].mats.len() as nat, |j: int| matrix_z(coms[i].mats@[j])),
            ),
    )
}

fn raw_matrix(m: &OpenedMatrix) -> (r: RawMatrix)
    ensures
        r.deep_view() == matrix_z(*m),
{
    let n: usize = m.points.len();
    let mut points: RawMatrix = Vec::new();
    for i in 0..n
        invariant
            n == m.points.len(),
            points.len() == i,
            forall|j: int| 0 <= j < i ==> (#[trigger] points@[j]).deep_view() == matrix_z(*m)[j],
    {
        let at: RawExt = [m.points[i].0.c0, m.points[i].0.c1];
        let p: (RawExt, Vec<RawExt>) = (at, raw_exts(&m.points[i].1));
        proof {
            assert(at.deep_view() =~= seq![m.points@[i as int].0.c0, m.points@[i as int].0.c1]);
            assert(p.deep_view() == matrix_z(*m)[i as int]);
        }
        points.push(p);
    }
    assert(points.deep_view() =~= matrix_z(*m));
    points
}

fn raw_rounds(coms: &Vec<OpenedBatch>) -> (r: RawRounds)
    ensures
        r.deep_view() == rounds_z(coms@),
{
    let n: usize = coms.len();
    let mut r: RawRounds = Vec::new();
    for i in 0..n
        invariant
            n == coms.len(),
            r.len() == i,
            forall|j: int| 0 <= j < i ==> (#[trigger] r@[j]).deep_view() == rounds_z(coms@)[j],
    {
        let m: usize = coms[i].mats.len();
        let mut mats: Vec<RawMatrix> = Vec::new();
        for k in 0..m
            invariant
                i < coms.len(),
                m == coms@[i as int].mats.len(),
                mats.len() == k,
                forall|j: int|
                    0 <= j < k ==> (#[trigger] mats@[j]).deep_view() == matrix_z(
                        coms@[i as int].mats@[j],
                    ),
        {
            mats.push(raw_matrix(&coms[i].mats[k]));
        }
        let c: (Vec<Digest>, Vec<RawMatrix>) = (copy_digests(&coms[i].cap), mats);
        proof {
            assert(c.1.deep_view() =~= rounds_z(coms@)[i as int].1);
            assert(c.deep_view() == rounds_z(coms@)[i as int]);
        }
        r.push(c);
    }
    assert(r.deep_view() =~= rounds_z(coms@));
    r
}

/// Elements as integers of the machine.
pub open spec fn u64s(s: Seq<int>) -> Seq<u64> {
    Seq::new(s.len(), |i: int| s[i] as u64)
}

/// An element as its canonical coefficients.
pub open spec fn point_z(z: (int, int)) -> Seq<u64> {
    seq![z.0 as u64, z.1 as u64]
}

/// The rounds of a hiding proof: its random values, its trace at the out-of-domain point and at the
/// next one, and its quotient chunks.
pub open spec fn hiding_rounds(p: PlainProof, pvs: Seq<int>, base: int, num_chunks: int) -> RoundsZ {
    let zeta = sampled_ext(before_zeta(p, base, pvs, true));
    let next = ered(zscale(zeta, two_adic_gen(base)));
    let random = if p.random_cap is Some {
        seq![
            (
                p.random_cap->0.deep_view(),
                seq![seq![(point_z(zeta), exts_z(p.random->0@))]],
            ),
        ]
    } else {
        Seq::empty()
    };
    let trace = (
        p.trace_cap.deep_view(),
        seq![
            seq![
                (point_z(zeta), exts_z(p.trace_local@)),
                (point_z(next), exts_z(p.trace_next->0@)),
            ],
        ],
    );
    let quotient = (
        p.quotient_cap.deep_view(),
        Seq::new(
            chunk_count(p, num_chunks) as nat,
            |i: int| seq![(point_z(zeta), exts_z(p.quotient_chunks@[i]@))],
        ),
    );
    random + seq![trace, quotient]
}

/// The verdict of the commitment scheme on the openings of a hiding proof.
pub open spec fn hiding_opened(
    params: FriParams,
    p: PlainProof,
    pvs: Seq<int>,
    base: int,
    num_chunks: int,
) -> bool {
    let d = after_ext(before_zeta(p, base, pvs, true));
    openings_hold(
        (
            params.log_blowup,
            params.log_final_poly_len,
            params.max_log_arity,
            params.num_queries,
            params.commit_pow_bits,
            params.query_pow_bits,
            params.cap_height,
        ),
        p.degree_bits,
        (hiding_rounds(p, pvs, base, num_chunks), opening_z(p), u64s(d.state), u64s(d.input), u64s(d.output)),
    )
}

/// What a check of hiding openings needs: caps that are Merkle caps, and sizes that can be had.
pub open spec fn openable(params: FriParams, p: PlainProof) -> bool {
    &&& all_caps_ok(p, true)
    &&& p.degree_bits + params.log_blowup < usize::BITS
    &&& 255 * arities_z(p.fri).len() + params.log_blowup + params.log_final_poly_len <= usize::MAX
    &&& pow2(params.log_final_poly_len as nat) <= usize::MAX
    &&& pow2(params.commit_pow_bits as nat) <= P
    &&& params.commit_pow_bits < usize::BITS
    &&& pow2(params.query_pow_bits as nat) <= P
    &&& params.query_pow_bits < usize::BITS
}

proof fn lemma_rounds(
    coms: Seq<OpenedBatch>,
    p: PlainProof,
    pvs: Seq<int>,
    base: int,
    zeta: Challenge,
    zeta_next: Challenge,
    num_chunks: int,
)
    requires
        num_chunks >= 0,
        zeta@ == sampled_ext(before_zeta(p, base, pvs, true)),
        zeta_next@ == ered(zscale(zeta@, two_adic_gen(base))),
        rounds_are(coms, p, zeta, zeta_next, true, num_chunks, true),
    ensures
        rounds_z(coms) == hiding_rounds(p, pvs, base, num_chunks),
{
    let r = rounds_z(coms);
    let h = hiding_rounds(p, pvs, base, num_chunks);
    let t = rounds_before_trace(p, true);
    assert(point_z(zeta@) =~= seq![zeta.c0, zeta.c1]);
    assert(point_z(zeta_next@) =~= seq![zeta_next.c0, zeta_next.c1]);
    assert(r.len() == h.len());
    if p.random_cap is Some {
        assert(coms[0].cap.deep_view() =~= p.random_cap->0.deep_view());
        assert(matrix_z(coms[0].mats@[0]) =~= h[0].1[0]);
        assert(r[0].1 =~= h[0].1);
        assert(r[0] == h[0]);
    }
    assert(h[t + 1].1.len() == chunk_count(p, num_chunks));
    assert(coms[t].cap.deep_view() =~= p.trace_cap.deep_view());
    assert(matrix_z(coms[t].mats@[0]) =~= h[t].1[0]);
    assert(r[t].1 =~= h[t].1);
    assert(r[t] == h[t]);
    assert(coms[t + 1].cap.deep_view() =~= p.quotient_cap.deep_view());
    assert forall|i: int| 0 <= i < r[t + 1].1.len() implies #[trigger] r[t + 1].1[i] == h[t
        + 1].1[i] by {
        assert(opened_once(
            quotient_mats(coms, p, true)[i],
            p.degree_bits as int,
            zeta,
            p.quotient_chunks@[i]@,
        ));
        assert(matrix_z(coms[t + 1].mats@[i]) =~= h[t + 1].1[i]);
    }
    assert(r[t + 1].1 =~= h[t + 1].1);
    assert(r[t + 1] == h[t + 1]);
    assert(r =~= h);
}

proof fn lemma_rounds_ok(
    params: FriParams,
    p: PlainProof,
    pvs: Seq<int>,
    base: int,
    num_chunks: int,
)
    requires
        num_chunks >= 0,
        openable(params, p),
        p.degree_bits <= 32,
    ensures
        rounds_ok(hiding_rounds(p, pvs, base, num_chunks)),
        commits_ok(fri_z(p.fri)),
        first_rounds(fri_z(p.fri)) == arities_z(p.fri).len(),
{
    let h = hiding_rounds(p, pvs, base, num_chunks);
    let t = rounds_before_trace(p, true);
    assert(h.len() == t + 2);
    assert forall|i: int| 0 <= i < h.len() implies is_pow2((#[trigger] h[i]).0.len() as int) by {
        assert(i == t || i == t + 1 || (p.random_cap is Some && i == 0));
    }
}

/// Has the commitment scheme check the openings of a hiding proof whose rounds were laid out.
pub fn check_openings(
    params: &FriParams,
    p: &PlainProof,
    pvs: &[u64],
    base: usize,
    coms: &Vec<OpenedBatch>,
    zeta: Challenge,
    zeta_next: Challenge,
    num_chunks: usize,
    c: &Challenger,
) -> (r: bool)
    requires
        openable(*params, *p),
        p.degree_bits <= 32,
        zeta@ == sampled_ext(before_zeta(*p, base as int, ints(pvs@), true)),
        zeta_next@ == ered(zscale(zeta@, two_adic_gen(base as int))),
        rounds_are(coms@, *p, zeta, zeta_next, true, num_chunks as int, true),
        c@ == after_ext(before_zeta(*p, base as int, ints(pvs@), true)),
    ensures
        r == hiding_opened(*params, *p, ints(pvs@), base as int, num_chunks as int),
{
    let s: &ChallengerState = c.state();
    let raw: RawCheck = (
        raw_rounds(coms),
        raw_opening(p),
        s.state,
        copy_row(&s.input),
        copy_row(&s.output),
    );
    proof {
        let d = after_ext(before_zeta(*p, base as int, ints(pvs@), true));
        assert(raw.2.deep_view() =~= u64s(d.state)) by {
            assert(ints(s.state@) =~= d.state);
        }
        assert(raw.3.deep_view() =~= u64s(d.input)) by {
            assert(ints(s.input@) =~= d.input);
        }
        assert(raw.4.deep_view() =~= u64s(d.output)) by {
            assert(ints(s.output@) =~= d.output);
        }
        lemma_rounds(coms@, *p, ints(pvs@), base as int, zeta, zeta_next, num_chunks as int);
        lemma_rounds_ok(*params, *p, ints(pvs@), base as int, num_chunks as int);
    }
    hiding_verify(
        params.log_blowup,
        params.log_final_poly_len,
        params.max_log_arity,
        params.num_queries,
        params.commit_pow_bits,
        params.query_pow_bits,
        params.cap_height,
        p.degree_bits,
        &raw,
    ).is_some()
}

} // verus!
