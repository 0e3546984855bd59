//! Proofs from their bytes.
use crate::aggregate::inputs::{HidingConfig, PlainConfig};
use crate::aggregate::window::copy_row;
use crate::field::Challenge;
use crate::merkle::Digest;
use crate::plain_proof::{BatchOpening, CommitOpening, FriProof, PlainProof, QueryProof};
use p3_uni_stark::Proof;
use vstd::prelude::*;

verus! {

/// An extension element, as its coefficients.
pub type RawExt = [u64; 2];

/// The commitments: the caps of the trace, of the quotient, and the random one.
pub type RawCommitments = (Vec<Digest>, Vec<Digest>, Option<Vec<Digest>>);

/// The opened values: of the trace and its next row, of preprocessed columns, of the quotient chunks,
/// and the random ones.
pub type RawOpened = (
    Vec<RawExt>,
    Option<Vec<RawExt>>,
    Option<Vec<RawExt>>,
    Option<Vec<RawExt>>,
    Vec<Vec<RawExt>>,
    Option<Vec<RawExt>>,
);

/// The salts of an opening, and its path.
pub type RawPath = (Vec<Vec<u64>>, Vec<Digest>);

/// The openings of one query: of the batches, and of the fold groups.
pub type RawQuery = (Vec<(Vec<Vec<u64>>, RawPath)>, Vec<(u8, Vec<RawExt>, RawPath)>);

/// The low-degree test: the commitments of its rounds and their proofs of work, the queries, the final
/// polynomial, and the proof of work of the queries.
pub type RawFri = (Vec<Vec<Digest>>, Vec<u64>, Vec<RawQuery>, Vec<RawExt>, u64);

/// A hiding proof: the commitments, the opened values, the random codewords with the low-degree test,
/// and the degree.
pub type RawProof = (RawCommitments, RawOpened, (Vec<Vec<Vec<Vec<RawExt>>>>, RawFri), usize);

/// The openings of one query without salts.
pub type BareQuery = (Vec<(Vec<Vec<u64>>, Vec<Digest>)>, Vec<(u8, Vec<RawExt>, Vec<Digest>)>);

/// A proof without hiding.
pub type BareProof = (
    RawCommitments,
    RawOpened,
    (Vec<Vec<Digest>>, Vec<u64>, Vec<BareQuery>, Vec<RawExt>, u64),
    usize,
);

/// The values of these types, as sequences.
pub type ExtsZ = Seq<Seq<u64>>;

pub type CapZ = Seq<Seq<u64>>;

pub type OpenedZ = (
    ExtsZ,
    Option<ExtsZ>,
    Option<ExtsZ>,
    Option<ExtsZ>,
    Seq<ExtsZ>,
    Option<ExtsZ>,
);

pub type PathZ = (Seq<Seq<u64>>, CapZ);

pub type QueryZ = (Seq<(Seq<Seq<u64>>, PathZ)>, Seq<(u8, ExtsZ, PathZ)>);

pub type FriZ = (Seq<CapZ>, Seq<u64>, Seq<QueryZ>, ExtsZ, u64);

pub type RawZ = ((CapZ, CapZ, Option<CapZ>), OpenedZ, (Seq<Seq<Seq<ExtsZ>>>, FriZ), usize);

pub type BareQueryZ = (Seq<(Seq<Seq<u64>>, CapZ)>, Seq<(u8, ExtsZ, CapZ)>);

pub type BareZ = (
    (CapZ, CapZ, Option<CapZ>),
    OpenedZ,
    (Seq<CapZ>, Seq<u64>, Seq<BareQueryZ>, ExtsZ, u64),
    usize,
);

/// The hiding proof that bytes encode, where they encode one.
pub uninterp spec fn hiding_proof(bytes: Seq<u8>) -> Option<RawZ>;

/// The proof without hiding that bytes encode, where they encode one.
pub uninterp spec fn bare_proof(bytes: Seq<u8>) -> Option<BareZ>;

/// `postcard::from_bytes` of postcard, to a hiding proof of p3-uni-stark. The proof is then encoded and
/// decoded once more, into integers: its fields in the order of their declaration, elements of the
/// field as canonical integers. What comes back depends on the bytes alone; the encoding itself is not
/// stated.
#[verifier::external_body]
fn decode_hiding(bytes: &[u8]) -> (r: Option<RawProof>)
    ensures
        r.deep_view() == hiding_proof(bytes@),
{
    let p: Proof<HidingConfig> = postcard::from_bytes(bytes).ok()?;
    postcard::from_bytes(&postcard::to_allocvec(&p).ok()?).ok()
}

/// `postcard::from_bytes` of postcard, to a proof of p3-uni-stark without hiding, decoded once more into
/// integers as above. What comes back depends on the bytes alone; the encoding itself is not stated.
#[verifier::external_body]
fn decode_bare(bytes: &[u8]) -> (r: Option<BareProof>)
    ensures
        r.deep_view() == bare_proof(bytes@),
{
    let p: Proof<PlainConfig> = postcard::from_bytes(bytes).ok()?;
    postcard::from_bytes(&postcard::to_allocvec(&p).ok()?).ok()
}

/// The coefficients of extension elements.
pub open spec fn exts_z(v: Seq<Challenge>) -> ExtsZ {
    Seq::new(v.len(), |i: int| seq![v[i].c0, v[i].c1])
}

pub open spec fn opt_exts_z(v: Option<Vec<Challenge>>) -> Option<ExtsZ> {
    match v {
        Some(x) => Some(exts_z(x@)),
        None => None,
    }
}

pub open spec fn lists_z(v: Seq<Vec<Challenge>>) -> Seq<ExtsZ> {
    Seq::new(v.len(), |i: int| exts_z(v[i]@))
}

pub open spec fn codewords_z(v: Seq<Vec<Vec<Vec<Challenge>>>>) -> Seq<Seq<Seq<ExtsZ>>> {
    Seq::new(v.len(), |i: int| Seq::new(v[i].len() as nat, |j: int| lists_z(v[i]@[j]@)))
}

fn exts(v: &Vec<RawExt>) -> (r: Vec<Challenge>)
    ensures
        exts_z(r@) == v.deep_view(),
{
    let n: usize = v.len();
    let mut r: Vec<Challenge> = Vec::new();
    for i in 0..n
        invariant
            n == v.len(),
            r.len() == i,
            forall|j: int|
                0 <= j < i ==> (#[trigger] r@[j]).c0 == v@[j]@[0] && r@[j].c1 == v@[j]@[1],
    {
        let x: RawExt = v[i];
        let e: Challenge = Challenge { c0: x[0], c1: x[1] };
        assert(e.c0 == v@[i as int]@[0] && e.c1 == v@[i as int]@[1]);
        r.push(e);
    }
    proof {
        let z = v.deep_view();
        assert forall|i: int| 0 <= i < n implies #[trigger] exts_z(r@)[i] == z[i] by {
            assert(r@[i].c0 == v@[i]@[0]);
            assert(z[i] =~= seq![r@[i].c0, r@[i].c1]);
        }
        assert(exts_z(r@) =~= z);
    }
    r
}

fn opt_exts(v: &Option<Vec<RawExt>>) -> (r: Option<Vec<Challenge>>)
    ensures
        opt_exts_z(r) == v.deep_view(),
{
    match v {
        Some(x) => Some(exts(x)),
        None => None,
    }
}

fn lists(v: &Vec<Vec<RawExt>>) -> (r: Vec<Vec<Challenge>>)
    ensures
        lists_z(r@) == v.deep_view(),
{
    let n: usize = v.len();
    let mut r: Vec<Vec<Challenge>> = Vec::new();
    for i in 0..n
        invariant
            n == v.len(),
            r.len() == i,
            forall|j: int| 0 <= j < i ==> exts_z(#[trigger] r@[j]@) == v@[j].deep_view(),
    {
        r.push(exts(&v[i]));
    }
    assert(lists_z(r@) =~= v.deep_view());
    r
}

fn codewords(v: &Vec<Vec<Vec<Vec<RawExt>>>>) -> (r: Vec<Vec<Vec<Vec<Challenge>>>>)
    ensures
        codewords_z(r@) == v.deep_view(),
{
    let n: usize = v.len();
    let mut r: Vec<Vec<Vec<Vec<Challenge>>>> = Vec::new();
    for i in 0..n
        invariant
            n == v.len(),
            r.len() == i,
            forall|j: int|
                0 <= j < i ==> Seq::new(
                    (#[trigger] r@[j]).len() as nat,
                    |k: int| lists_z(r@[j]@[k]@),
                ) == v@[j].deep_view(),
    {
        let m: usize = v[i].len();
        let mut s: Vec<Vec<Vec<Challenge>>> = Vec::new();
        for k in 0..m
            invariant
                i < v.len(),
                m == v@[i as int].len(),
                s.len() == k,
                forall|j: int|
                    0 <= j < k ==> lists_z(#[trigger] s@[j]@) == v@[i as int]@[j].deep_view(),
        {
            s.push(lists(&v[i][k]));
        }
        assert(Seq::new(s.len() as nat, |k: int| lists_z(s@[k]@)) =~= v@[i as int].deep_view());
        r.push(s);
    }
    assert(codewords_z(r@) =~= v.deep_view());
    r
}

pub(crate) fn copy_rows(v: &Vec<Vec<u64>>) -> (r: Vec<Vec<u64>>)
    ensures
        r.deep_view() == v.deep_view(),
{
    let n: usize = v.len();
    let mut r: Vec<Vec<u64>> = Vec::new();
    for i in 0..n
        invariant
            n == v.len(),
            r.len() == i,
            forall|j: int| 0 <= j < i ==> #[trigger] r@[j]@ == v@[j]@,
    {
        r.push(copy_row(&v[i]));
    }
    assert(r.deep_view() =~= v.deep_view()) by {
        assert forall|j: int| 0 <= j < n implies #[trigger] r.deep_view()[j] == v.deep_view()[j] by {
            assert(r@[j]@ == v@[j]@);
        }
    }
    r
}

pub(crate) fn copy_digests(v: &Vec<Digest>) -> (r: Vec<Digest>)
    ensures
        r@ == v@,
{
    let n: usize = v.len();
    let mut r: Vec<Digest> = Vec::new();
    for i in 0..n
        invariant
            n == v.len(),
            r@ == v@.take(i as int),
    {
        r.push(v[i]);
        assert(r@ =~= v@.take(i + 1));
    }
    assert(v@.take(n as int) =~= v@);
    r
}

/// What a batch opening holds.
pub open spec fn batch_z(b: BatchOpening) -> (Seq<Seq<u64>>, PathZ) {
    (b.opened_values.deep_view(), (b.salts.deep_view(), b.path.deep_view()))
}

/// What the opening of a fold group holds.
pub open spec fn step_z(c: CommitOpening) -> (u8, ExtsZ, PathZ) {
    (c.log_arity, exts_z(c.sibling_values@), (c.salts.deep_view(), c.path.deep_view()))
}

/// What the openings of a query hold.
pub open spec fn query_z(q: QueryProof) -> QueryZ {
    (
        Seq::new(q.input_proof.len() as nat, |i: int| batch_z(q.input_proof@[i])),
        Seq::new(
            q.commit_phase_openings.len() as nat,
            |i: int| step_z(q.commit_phase_openings@[i]),
        ),
    )
}

/// What a low-degree test holds.
pub open spec fn fri_z(f: FriProof) -> FriZ {
    (
        f.commit_phase_commits.deep_view(),
        f.commit_pow_witnesses@,
        Seq::new(f.query_proofs.len() as nat, |i: int| query_z(f.query_proofs@[i])),
        exts_z(f.final_poly@),
        f.query_pow_witness,
    )
}

/// Whether a proof is the one that was decoded. Preprocessed columns are not kept.
pub open spec fn decoded(p: PlainProof, z: RawZ) -> bool {
    &&& p.degree_bits == z.3
    &&& p.trace_cap.deep_view() == z.0.0
    &&& p.quotient_cap.deep_view() == z.0.1
    &&& p.random_cap.deep_view() == z.0.2
    &&& exts_z(p.trace_local@) == z.1.0
    &&& opt_exts_z(p.trace_next) == z.1.1
    &&& lists_z(p.quotient_chunks@) == z.1.4
    &&& opt_exts_z(p.random) == z.1.5
    &&& codewords_z(p.codewords@) == z.2.0
    &&& fri_z(p.fri) == z.2.1
}

/// A proof without salts, as one with none.
pub open spec fn bare_fri_z(
    f: (Seq<CapZ>, Seq<u64>, Seq<BareQueryZ>, ExtsZ, u64),
) -> FriZ {
    (f.0, f.1, Seq::new(f.2.len(), |i: int| bare_query_z(f.2[i])), f.3, f.4)
}

pub open spec fn bare_query_z(q: BareQueryZ) -> QueryZ {
    let none = Seq::<Seq<u64>>::empty();
    (
        Seq::new(q.0.len(), |i: int| (q.0[i].0, (none, q.0[i].1))),
        Seq::new(q.1.len(), |i: int| (q.1[i].0, q.1[i].1, (none, q.1[i].2))),
    )
}

pub open spec fn bare_z(z: BareZ) -> RawZ {
    (z.0, z.1, (Seq::empty(), bare_fri_z(z.2)), z.3)
}

fn query(q: &RawQuery) -> (r: QueryProof)
    ensures
        query_z(r) == q.deep_view(),
{
    let n: usize = q.0.len();
    let mut input_proof: Vec<BatchOpening> = Vec::new();
    for i in 0..n
        invariant
            n == q.0.len(),
            input_proof.len() == i,
            forall|j: int| 0 <= j < i ==> batch_z(#[trigger] input_proof@[j]) == q.0@[j].deep_view(),
    {
        let b = &q.0[i];
        let o: BatchOpening = BatchOpening {
            opened_values: copy_rows(&b.0),
            salts: copy_rows(&b.1.0),
            path: copy_digests(&b.1.1),
        };
        assert(batch_z(o) == q.0@[i as int].deep_view());
        input_proof.push(o);
    }
    let m: usize = q.1.len();
    let mut commit_phase_openings: Vec<CommitOpening> = Vec::new();
    for i in 0..m
        invariant
            m == q.1.len(),
            commit_phase_openings.len() == i,
            forall|j: int|
                0 <= j < i ==> step_z(#[trigger] commit_phase_openings@[j]) == q.1@[j].deep_view(),
    {
        let b = &q.1[i];
        let o: CommitOpening = CommitOpening {
            log_arity: b.0,
            sibling_values: exts(&b.1),
            salts: copy_rows(&b.2.0),
            path: copy_digests(&b.2.1),
        };
        assert(step_z(o) == q.1@[i as int].deep_view());
        commit_phase_openings.push(o);
    }
    let r: QueryProof = QueryProof { input_proof, commit_phase_openings };
    assert(query_z(r).0 =~= q.0.deep_view());
    assert(query_z(r).1 =~= q.1.deep_view());
    r
}

fn bare_query(q: &BareQuery) -> (r: QueryProof)
    ensures
        query_z(r) == bare_query_z(q.deep_view()),
{
    let n: usize = q.0.len();
    let mut input_proof: Vec<BatchOpening> = Vec::new();
    let ghost none = Seq::<Seq<u64>>::empty();
    for i in 0..n
        invariant
            n == q.0.len(),
            none == Seq::<Seq<u64>>::empty(),
            input_proof.len() == i,
            forall|j: int|
                0 <= j < i ==> batch_z(#[trigger] input_proof@[j]) == (
                    q.0@[j].0.deep_view(),
                    (none, q.0@[j].1.deep_view()),
                ),
    {
        let b = &q.0[i];
        let o: BatchOpening = BatchOpening {
            opened_values: copy_rows(&b.0),
            salts: Vec::new(),
            path: copy_digests(&b.1),
        };
        assert(o.salts.deep_view() =~= none);
        input_proof.push(o);
    }
    let m: usize = q.1.len();
    let mut commit_phase_openings: Vec<CommitOpening> = Vec::new();
    for i in 0..m
        invariant
            m == q.1.len(),
            none == Seq::<Seq<u64>>::empty(),
            commit_phase_openings.len() == i,
            forall|j: int|
                0 <= j < i ==> step_z(#[trigger] commit_phase_openings@[j]) == (
                    q.1@[j].0,
                    q.1@[j].1.deep_view(),
                    (none, q.1@[j].2.deep_view()),
                ),
    {
        let b = &q.1[i];
        let o: CommitOpening = CommitOpening {
            log_arity: b.0,
            sibling_values: exts(&b.1),
            salts: Vec::new(),
            path: copy_digests(&b.2),
        };
        assert(o.salts.deep_view() =~= none);
        commit_phase_openings.push(o);
    }
    let r: QueryProof = QueryProof { input_proof, commit_phase_openings };
    assert(query_z(r).0 =~= bare_query_z(q.deep_view()).0);
    assert(query_z(r).1 =~= bare_query_z(q.deep_view()).1);
    r
}

/// The hiding proof that bytes encode.
pub fn parse_hiding_proof(bytes: &[u8]) -> (r: Option<PlainProof>)
    ensures
        match r {
            Some(p) => hiding_proof(bytes@) is Some && decoded(p, hiding_proof(bytes@)->0),
            None => hiding_proof(bytes@) is None,
        },
{
    let raw: RawProof = match decode_hiding(bytes) {
        None => {
            return None;
        },
        Some(raw) => raw,
    };
    let ghost z = raw.deep_view();
    let ((trace_cap, quotient_cap, random_cap), opened, (cw, fri), degree_bits) = raw;
    let n: usize = fri.2.len();
    let mut query_proofs: Vec<QueryProof> = Vec::new();
    for i in 0..n
        invariant
            n == fri.2.len(),
            query_proofs.len() == i,
            forall|j: int| 0 <= j < i ==> query_z(#[trigger] query_proofs@[j]) == fri.2@[j].deep_view(),
    {
        query_proofs.push(query(&fri.2[i]));
    }
    let final_poly: Vec<Challenge> = exts(&fri.3);
    let query_pow_witness: u64 = fri.4;
    assert(Seq::new(query_proofs.len() as nat, |i: int| query_z(query_proofs@[i]))
        =~= fri.2.deep_view());
    assert(fri.1.deep_view() =~= fri.1@);
    let p: PlainProof = PlainProof {
        degree_bits,
        trace_cap,
        quotient_cap,
        random_cap,
        trace_local: exts(&opened.0),
        trace_next: opt_exts(&opened.1),
        quotient_chunks: lists(&opened.4),
        random: opt_exts(&opened.5),
        codewords: codewords(&cw),
        fri: FriProof {
            commit_phase_commits: fri.0,
            commit_pow_witnesses: fri.1,
            final_poly,
            query_pow_witness,
            query_proofs,
        },
    };
    assert(decoded(p, z));
    Some(p)
}

/// Whether a hiding proof is accepted, given what its verifier says of the proof that its bytes hold: bytes
/// that hold none are refused.
pub fn proof_verdict(bytes: &[u8], verdict: bool) -> (r: bool)
    ensures
        r == (hiding_proof(bytes@) is Some && verdict),
{
    match parse_hiding_proof(bytes) {
        Some(_) => verdict,
        None => false,
    }
}

/// The proof without hiding that bytes encode.
pub fn parse_bare_proof(bytes: &[u8]) -> (r: Option<PlainProof>)
    ensures
        match r {
            Some(p) => bare_proof(bytes@) is Some && decoded(p, bare_z(bare_proof(bytes@)->0)),
            None => bare_proof(bytes@) is None,
        },
{
    let raw: BareProof = match decode_bare(bytes) {
        None => {
            return None;
        },
        Some(raw) => raw,
    };
    let ghost z = raw.deep_view();
    let ((trace_cap, quotient_cap, random_cap), opened, fri, degree_bits) = raw;
    let n: usize = fri.2.len();
    let mut query_proofs: Vec<QueryProof> = Vec::new();
    for i in 0..n
        invariant
            n == fri.2.len(),
            query_proofs.len() == i,
            forall|j: int|
                0 <= j < i ==> query_z(#[trigger] query_proofs@[j]) == bare_query_z(
                    fri.2@[j].deep_view(),
                ),
    {
        query_proofs.push(bare_query(&fri.2[i]));
    }
    let final_poly: Vec<Challenge> = exts(&fri.3);
    let query_pow_witness: u64 = fri.4;
    assert(Seq::new(query_proofs.len() as nat, |i: int| query_z(query_proofs@[i]))
        =~= bare_fri_z(z.2).2);
    assert(fri.1.deep_view() =~= fri.1@);
    let none: Vec<Vec<Vec<Vec<Challenge>>>> = Vec::new();
    assert(codewords_z(none@) =~= Seq::empty());
    let p: PlainProof = PlainProof {
        degree_bits,
        trace_cap,
        quotient_cap,
        random_cap,
        trace_local: exts(&opened.0),
        trace_next: opt_exts(&opened.1),
        quotient_chunks: lists(&opened.4),
        random: opt_exts(&opened.5),
        codewords: none,
        fri: FriProof {
            commit_phase_commits: fri.0,
            commit_pow_witnesses: fri.1,
            final_poly,
            query_pow_witness,
            query_proofs,
        },
    };
    assert(decoded(p, bare_z(z)));
    Some(p)
}

} // verus!
