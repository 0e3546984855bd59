//! The check of a proof up to its constraints: the transcript, the out-of-domain point, the rounds
//! that are opened there, and their low-degree test.
use crate::challenger::{
    after_ext, fresh, observed_all, observed_exts, sampled_ext, views, Challenger, Duplex,
};
use crate::cols::is_pow2;
use crate::field::{ered, escale, ints, two_adic_gen, two_adic_generator, zscale, Challenge, P};
use crate::fri_input::{highest, OpenedBatch, OpenedMatrix};
use crate::fri_query::{epow2k, FriError, FriParams};
use crate::fri_verify::{caps_ok, fri_run, has_matrix, tallest, verify_fri_native};
use crate::merkle::Digest;
use crate::plain_proof::{
    arities_z, commitment_felts, commitment_z, instance_felts, instance_z, random_seen,
    PlainProof,
};
use vstd::arithmetic::power2::pow2;
use vstd::prelude::*;

verus! {

/// Why a proof is refused.
#[derive(Clone, Copy, Debug, PartialEq, Eq, Structural)]
pub enum ProofError {
    DegreeBitsTooSmall { minimum: usize, got: usize },
    DegreeBitsTooLarge { maximum: usize, got: usize },
    ZetaInTraceDomain,
    MissingRandomValues,
    MissingTraceNext,
    Fri(FriError),
    OpeningsRejected,
    OodEvaluationMismatch,
}

/// The largest logarithm of a subgroup of the field.
pub const TWO_ADICITY: usize = 32;

/// The degree of the trace without its randomisation, as a logarithm.
pub fn validate_degree_bits(degree_bits: usize, is_zk: usize, max_log_degree: usize) -> (r: Result<
    usize,
    ProofError,
>)
    ensures
        r == (if degree_bits < is_zk {
            Err::<usize, ProofError>(
                ProofError::DegreeBitsTooSmall { minimum: is_zk, got: degree_bits },
            )
        } else if degree_bits > max_log_degree {
            Err(ProofError::DegreeBitsTooLarge { maximum: max_log_degree, got: degree_bits })
        } else if degree_bits >= usize::BITS {
            Err(
                ProofError::DegreeBitsTooLarge {
                    maximum: (usize::BITS - 1) as usize,
                    got: degree_bits,
                },
            )
        } else {
            Ok((degree_bits - is_zk) as usize)
        }),
{
    if degree_bits < is_zk {
        Err(ProofError::DegreeBitsTooSmall { minimum: is_zk, got: degree_bits })
    } else if degree_bits > max_log_degree {
        Err(ProofError::DegreeBitsTooLarge { maximum: max_log_degree, got: degree_bits })
    } else if degree_bits >= usize::BITS as usize {
        Err(
            ProofError::DegreeBitsTooLarge {
                maximum: (usize::BITS - 1) as usize,
                got: degree_bits,
            },
        )
    } else {
        Ok(degree_bits - is_zk)
    }
}

fn copy_exts(v: &Vec<Challenge>) -> (r: Vec<Challenge>)
    ensures
        r@ == v@,
{
    let n: usize = v.len();
    let mut r: Vec<Challenge> = Vec::new();
    for i in 0..n
        invariant
            n == v.len(),
            r@ == v@.take(i as int),
    {
        r.push(v[i]);
        assert(r@ =~= v@.take(i + 1));
    }
    assert(r@ =~= v@);
    r
}

fn copy_cap(v: &Vec<Digest>) -> (r: Vec<Digest>)
    ensures
        r@ == v@,
{
    let n: usize = v.len();
    let mut r: Vec<Digest> = Vec::new();
    for i in 0..n
        invariant
            n == v.len(),
            r@ == v@.take(i as int),
    {
        r.push(v[i]);
        assert(r@ =~= v@.take(i + 1));
    }
    assert(r@ =~= v@);
    r
}

/// A matrix opened at one point.
pub open spec fn opened_once(m: OpenedMatrix, log_size: int, z: Challenge, values: Seq<Challenge>) -> bool {
    &&& m.log_size == log_size
    &&& m.points.len() == 1
    &&& m.points@[0].0 == z
    &&& m.points@[0].1@ == values
}

/// The number of quotient chunks that are opened.
pub open spec fn chunk_count(p: PlainProof, num_chunks: int) -> int {
    if p.quotient_chunks.len() < num_chunks {
        p.quotient_chunks.len() as int
    } else {
        num_chunks
    }
}

/// The number of rounds before that of the trace.
pub open spec fn rounds_before_trace(p: PlainProof, hiding: bool) -> int {
    if random_seen(p, hiding) is Some {
        1
    } else {
        0
    }
}

/// The matrices of the quotient round.
pub open spec fn quotient_mats(coms: Seq<OpenedBatch>, p: PlainProof, hiding: bool) -> Seq<
    OpenedMatrix,
> {
    coms[rounds_before_trace(p, hiding) + 1].mats@
}

/// The rounds of a proof: the random one of a hiding proof where there is one, the trace at the point
/// and, where it is looked at, at the next one, and the quotient chunks.
pub open spec fn rounds_are(
    coms: Seq<OpenedBatch>,
    p: PlainProof,
    zeta: Challenge,
    zeta_next: Challenge,
    main_next: bool,
    num_chunks: int,
    hiding: bool,
) -> bool {
    let db = p.degree_bits as int;
    let t = rounds_before_trace(p, hiding);
    let trace = coms[t];
    let quotient = coms[t + 1];
    &&& coms.len() == t + 2
    &&& random_seen(p, hiding) is Some ==> {
        &&& coms[0].cap@ == p.random_cap->0@
        &&& coms[0].mats.len() == 1
        &&& p.random is Some
        &&& opened_once(coms[0].mats@[0], db, zeta, p.random->0@)
    }
    &&& trace.cap@ == p.trace_cap@
    &&& trace.mats.len() == 1
    &&& trace.mats@[0].log_size == db
    &&& trace.mats@[0].points.len() == (if main_next {
        2int
    } else {
        1int
    })
    &&& trace.mats@[0].points@[0].0 == zeta
    &&& trace.mats@[0].points@[0].1@ == p.trace_local@
    &&& main_next ==> {
        &&& p.trace_next is Some
        &&& trace.mats@[0].points@[1].0 == zeta_next
        &&& trace.mats@[0].points@[1].1@ == p.trace_next->0@
    }
    &&& quotient.cap@ == p.quotient_cap@
    &&& quotient.mats.len() == chunk_count(p, num_chunks)
    &&& forall|i: int|
        0 <= i < quotient.mats.len() ==> opened_once(
            #[trigger] quotient_mats(coms, p, hiding)[i],
            db,
            zeta,
            p.quotient_chunks@[i]@,
        )
}

/// The rounds to be opened, with the challenges they were drawn with.
#[derive(Debug)]
pub struct OpeningRounds {
    pub alpha: Challenge,
    pub zeta: Challenge,
    pub zeta_next: Challenge,
    pub coms: Vec<OpenedBatch>,
}

/// The sponge that the first challenge of a proof is read from.
pub open spec fn before_alpha(p: PlainProof, base: int, pvs: Seq<int>) -> Duplex {
    observed_all(fresh(), instance_z(p, base, pvs))
}

/// The sponge that the out-of-domain point of a proof is read from.
pub open spec fn before_zeta(p: PlainProof, base: int, pvs: Seq<int>, hiding: bool) -> Duplex {
    observed_all(after_ext(before_alpha(p, base, pvs)), commitment_z(p, hiding))
}

/// What a proof is refused for before its openings are looked at.
pub open spec fn rounds_fail(
    p: PlainProof,
    base: int,
    pvs: Seq<int>,
    main_next: bool,
    hiding: bool,
) -> Option<ProofError> {
    let zeta = sampled_ext(before_zeta(p, base, pvs, hiding));
    if epow2k(zeta, base as nat) == (1int, 0int) {
        Some(ProofError::ZetaInTraceDomain)
    } else if random_seen(p, hiding) is Some && p.random is None {
        Some(ProofError::MissingRandomValues)
    } else if main_next && p.trace_next is None {
        Some(ProofError::MissingTraceNext)
    } else {
        None
    }
}

/// Draws the challenges of a proof and lays out the rounds that it opens, that of the random commitment
/// among them where the proof is to hide. The trace domain has `2^base` points.
pub fn opening_rounds(
    p: &PlainProof,
    c: &mut Challenger,
    base: usize,
    pvs: &[u64],
    main_next: bool,
    num_chunks: usize,
    hiding: bool,
) -> (r: Result<OpeningRounds, ProofError>)
    requires
        old(c)@ == fresh(),
        base <= 32,
    ensures
        final(c)@ == after_ext(before_zeta(*p, base as int, ints(pvs@), hiding)),
        match r {
            Ok(o) => {
                &&& rounds_fail(*p, base as int, ints(pvs@), main_next, hiding) is None
                &&& o.alpha@ == sampled_ext(before_alpha(*p, base as int, ints(pvs@)))
                &&& o.zeta@ == sampled_ext(before_zeta(*p, base as int, ints(pvs@), hiding))
                &&& o.zeta_next@ == ered(zscale(o.zeta@, two_adic_gen(base as int)))
                &&& rounds_are(o.coms@, *p, o.zeta, o.zeta_next, main_next, num_chunks as int, hiding)
            },
            Err(e) => rounds_fail(*p, base as int, ints(pvs@), main_next, hiding) == Some(e),
        },
{
    let instance: Vec<u64> = instance_felts(p, base, pvs);
    c.observe_all(instance.as_slice());
    let alpha: Challenge = c.sample_ext();
    let commitment: Vec<u64> = commitment_felts(p, hiding);
    c.observe_all(commitment.as_slice());
    let zeta: Challenge = c.sample_ext();
    let power: Challenge = crate::fri_query::esquare(zeta, base);
    if power.c0 == 1 && power.c1 == 0 {
        return Err(ProofError::ZetaInTraceDomain);
    }
    let zeta_next: Challenge = escale(zeta, two_adic_generator(base));
    let mut coms: Vec<OpenedBatch> = Vec::new();
    if hiding {
        match &p.random_cap {
            Some(cap) => match &p.random {
                Some(values) => {
                    let m: OpenedMatrix = OpenedMatrix {
                        log_size: p.degree_bits,
                        points: vec![(zeta, copy_exts(values))],
                    };
                    coms.push(OpenedBatch { cap: copy_cap(cap), mats: vec![m] });
                },
                None => {
                    return Err(ProofError::MissingRandomValues);
                },
            },
            None => {},
        }
    }
    let mut points: Vec<(Challenge, Vec<Challenge>)> = vec![(zeta, copy_exts(&p.trace_local))];
    if main_next {
        match &p.trace_next {
            Some(values) => {
                points.push((zeta_next, copy_exts(values)));
            },
            None => {
                return Err(ProofError::MissingTraceNext);
            },
        }
    }
    let trace: OpenedMatrix = OpenedMatrix { log_size: p.degree_bits, points };
    coms.push(OpenedBatch { cap: copy_cap(&p.trace_cap), mats: vec![trace] });
    let n: usize = if p.quotient_chunks.len() < num_chunks {
        p.quotient_chunks.len()
    } else {
        num_chunks
    };
    let mut mats: Vec<OpenedMatrix> = Vec::new();
    for i in 0..n
        invariant
            n <= p.quotient_chunks.len(),
            mats.len() == i,
            forall|j: int|
                0 <= j < i ==> opened_once(
                    #[trigger] mats@[j],
                    p.degree_bits as int,
                    zeta,
                    p.quotient_chunks@[j]@,
                ),
    {
        mats.push(
            OpenedMatrix {
                log_size: p.degree_bits,
                points: vec![(zeta, copy_exts(&p.quotient_chunks[i]))],
            },
        );
    }
    coms.push(OpenedBatch { cap: copy_cap(&p.quotient_cap), mats });
    Ok(OpeningRounds { alpha, zeta, zeta_next, coms })
}

/// The sponge behind the values of the first `n` points of a matrix.
pub open spec fn observed_points(
    d: Duplex,
    points: Seq<(Challenge, Vec<Challenge>)>,
    n: nat,
) -> Duplex
    decreases n,
{
    if n == 0 {
        d
    } else {
        observed_exts(observed_points(d, points, (n - 1) as nat), views(points[n - 1].1@))
    }
}

/// The sponge behind the values of the first `n` matrices of a batch.
pub open spec fn observed_mats(d: Duplex, mats: Seq<OpenedMatrix>, n: nat) -> Duplex
    decreases n,
{
    if n == 0 {
        d
    } else {
        let m = mats[n - 1];
        observed_points(observed_mats(d, mats, (n - 1) as nat), m.points@, m.points@.len())
    }
}

/// The sponge behind the values of the first `n` batches.
pub open spec fn observed_coms(d: Duplex, coms: Seq<OpenedBatch>, n: nat) -> Duplex
    decreases n,
{
    if n == 0 {
        d
    } else {
        let mats = coms[n - 1].mats@;
        observed_mats(observed_coms(d, coms, (n - 1) as nat), mats, mats.len())
    }
}

/// Takes in the opened values.
pub fn observe_openings(c: &mut Challenger, coms: &Vec<OpenedBatch>)
    ensures
        final(c)@ == observed_coms(old(c)@, coms@, coms@.len()),
{
    let ghost d = c@;
    let n: usize = coms.len();
    for i in 0..n
        invariant
            n == coms.len(),
            c@ == observed_coms(d, coms@, i as nat),
    {
        let ghost e = c@;
        let m: usize = coms[i].mats.len();
        for j in 0..m
            invariant
                i < coms.len(),
                m == coms@[i as int].mats.len(),
                c@ == observed_mats(e, coms@[i as int].mats@, j as nat),
        {
            let ghost f = c@;
            let k: usize = coms[i].mats[j].points.len();
            for l in 0..k
                invariant
                    i < coms.len(),
                    j < coms@[i as int].mats.len(),
                    k == coms@[i as int].mats@[j as int].points.len(),
                    c@ == observed_points(f, coms@[i as int].mats@[j as int].points@, l as nat),
            {
                c.observe_exts(coms[i].mats[j].points[l].1.as_slice());
            }
        }
    }
}

/// Every cap of a proof is a Merkle cap.
pub open spec fn all_caps_ok(p: PlainProof, hiding: bool) -> bool {
    &&& is_pow2(p.trace_cap.len() as int)
    &&& is_pow2(p.quotient_cap.len() as int)
    &&& random_seen(p, hiding) is Some ==> is_pow2(p.random_cap->0.len() as int)
    &&& caps_ok(p.fri)
}

proof fn lemma_same_height(mats: Seq<OpenedMatrix>, b: int, db: int, n: nat)
    requires
        n <= mats.len(),
        forall|i: int| 0 <= i < n ==> (#[trigger] mats[i]).log_size == db,
    ensures
        n > 0 ==> highest(mats, b, n) == db + b,
        n == 0 ==> highest(mats, b, n) == 0,
    decreases n,
{
    if n > 0 {
        lemma_same_height(mats, b, db, (n - 1) as nat);
    }
}

/// All rounds have the height of the trace.
pub proof fn lemma_rounds_height(
    coms: Seq<OpenedBatch>,
    p: PlainProof,
    zeta: Challenge,
    zeta_next: Challenge,
    main_next: bool,
    num_chunks: int,
    b: int,
)
    requires
        rounds_are(coms, p, zeta, zeta_next, main_next, num_chunks, false),
        num_chunks >= 0,
        b >= 0,
    ensures
        tallest(coms, b, coms.len()) == p.degree_bits + b,
        has_matrix(coms),
{
    let db = p.degree_bits as int;
    let t = rounds_before_trace(p, false);
    lemma_same_height(coms[0].mats@, b, db, coms[0].mats@.len());
    lemma_same_height(coms[t].mats@, b, db, coms[t].mats@.len());
    let q = coms[t + 1].mats@;
    assert forall|i: int| 0 <= i < q.len() implies (#[trigger] q[i]).log_size == db by {
        assert(opened_once(quotient_mats(coms, p, false)[i], db, zeta, p.quotient_chunks@[i]@));
    }
    lemma_same_height(q, b, db, q.len());
    assert(coms[t].mats.len() > 0);
    reveal_with_fuel(tallest, 4);
}

/// Checks a proof without hiding up to its constraints: draws its challenges, lays out its rounds and
/// runs their low-degree test.
pub fn verify_openings(
    params: &FriParams,
    p: &PlainProof,
    pvs: &[u64],
    main_next: bool,
    num_chunks: usize,
) -> (r: Result<OpeningRounds, ProofError>)
    requires
        all_caps_ok(*p, false),
        p.degree_bits <= TWO_ADICITY ==> {
            &&& p.degree_bits + params.log_blowup <= 32
            &&& 2 * pow2((p.degree_bits + params.log_blowup) as nat) <= usize::MAX
        },
        255 * arities_z(p.fri).len() + params.log_blowup + params.log_final_poly_len <= usize::MAX,
        pow2(params.log_final_poly_len as nat) <= usize::MAX,
        pow2(params.commit_pow_bits as nat) <= P,
        pow2(params.query_pow_bits as nat) <= P,
    ensures
        ({
            let db = p.degree_bits as int;
            let z = ints(pvs@);
            let early = rounds_fail(*p, db, z, main_next, false);
            let d = after_ext(before_zeta(*p, db, z, false));
            if db > TWO_ADICITY {
                r is Err && r->Err_0 == (ProofError::DegreeBitsTooLarge {
                    maximum: TWO_ADICITY,
                    got: p.degree_bits,
                })
            } else if early is Some {
                r is Err && r->Err_0 == early->0
            } else {
                match r {
                    Ok(o) => {
                        &&& o.alpha@ == sampled_ext(before_alpha(*p, db, z))
                        &&& o.zeta@ == sampled_ext(before_zeta(*p, db, z, false))
                        &&& o.zeta_next@ == ered(zscale(o.zeta@, two_adic_gen(db)))
                        &&& rounds_are(
                            o.coms@,
                            *p,
                            o.zeta,
                            o.zeta_next,
                            main_next,
                            num_chunks as int,
                            false,
                        )
                        &&& fri_run(
                            observed_coms(d, o.coms@, o.coms@.len()),
                            *params,
                            p.fri,
                            o.coms@,
                        ).fail is None
                    },
                    Err(e) => exists|o: OpeningRounds|
                        {
                            &&& o.alpha@ == sampled_ext(before_alpha(*p, db, z))
                            &&& o.zeta@ == sampled_ext(before_zeta(*p, db, z, false))
                            &&& o.zeta_next@ == ered(zscale(o.zeta@, two_adic_gen(db)))
                            &&& #[trigger] rounds_are(
                                o.coms@,
                                *p,
                                o.zeta,
                                o.zeta_next,
                                main_next,
                                num_chunks as int,
                                false,
                            )
                            &&& e is Fri
                            &&& fri_run(
                                observed_coms(d, o.coms@, o.coms@.len()),
                                *params,
                                p.fri,
                                o.coms@,
                            ).fail == Some(e->Fri_0)
                        },
                }
            }
        }),
{
    proof {
        if p.degree_bits <= TWO_ADICITY {
            crate::native_fri::lemma_log_fits(
                (p.degree_bits + params.log_blowup) as nat,
            );
        }
    }
    let base: usize = match validate_degree_bits(p.degree_bits, 0, TWO_ADICITY) {
        Err(e) => {
            return Err(e);
        },
        Ok(b) => b,
    };
    let mut c: Challenger = Challenger::new();
    match opening_rounds(p, &mut c, base, pvs, main_next, num_chunks, false) {
        Err(e) => Err(e),
        Ok(o) => {
            observe_openings(&mut c, &o.coms);
            proof {
                lemma_rounds_height(
                    o.coms@,
                    *p,
                    o.zeta,
                    o.zeta_next,
                    main_next,
                    num_chunks as int,
                    params.log_blowup as int,
                );
                assert forall|i: int| 0 <= i < o.coms.len() implies is_pow2(
                    (#[trigger] o.coms@[i]).cap.len() as int,
                ) by {
                    assert(o.coms@[i].cap@.len() == o.coms@[i].cap.len());
                }
            }
            match verify_fri_native(params, &p.fri, &mut c, &o.coms) {
                Ok(()) => Ok(o),
                Err(e) => {
                    assert(rounds_are(
                        o.coms@,
                        *p,
                        o.zeta,
                        o.zeta_next,
                        main_next,
                        num_chunks as int,
                        false,
                    ));
                    Err(ProofError::Fri(e))
                },
            }
        },
    }
}

} // verus!
