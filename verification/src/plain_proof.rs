//! A proof as plain values, and the elements of it that the transcript takes in.
use crate::challenger::views;
use crate::field::{ints, Challenge};
use crate::merkle::Digest;
use vstd::prelude::*;

verus! {

/// The opening of one row of every matrix of a batch: the rows, their salts where the commitment
/// hides, and the Merkle path.
#[derive(Debug)]
pub struct BatchOpening {
    pub opened_values: Vec<Vec<u64>>,
    pub salts: Vec<Vec<u64>>,
    pub path: Vec<Digest>,
}

/// The opening of a fold group but for the evaluation that the verifier computes.
#[derive(Debug)]
pub struct CommitOpening {
    pub log_arity: u8,
    pub sibling_values: Vec<Challenge>,
    pub salts: Vec<Vec<u64>>,
    pub path: Vec<Digest>,
}

/// The openings of one query.
#[derive(Debug)]
pub struct QueryProof {
    pub input_proof: Vec<BatchOpening>,
    pub commit_phase_openings: Vec<CommitOpening>,
}

/// The low-degree test.
#[derive(Debug)]
pub struct FriProof {
    pub commit_phase_commits: Vec<Vec<Digest>>,
    pub commit_pow_witnesses: Vec<u64>,
    pub final_poly: Vec<Challenge>,
    pub query_pow_witness: u64,
    pub query_proofs: Vec<QueryProof>,
}

/// A proof. The random commitment, the random values and the random codewords are there where the
/// commitments hide.
#[derive(Debug)]
pub struct PlainProof {
    pub degree_bits: usize,
    pub trace_cap: Vec<Digest>,
    pub quotient_cap: Vec<Digest>,
    pub random_cap: Option<Vec<Digest>>,
    pub trace_local: Vec<Challenge>,
    pub trace_next: Option<Vec<Challenge>>,
    pub quotient_chunks: Vec<Vec<Challenge>>,
    pub random: Option<Vec<Challenge>>,
    pub codewords: Vec<Vec<Vec<Vec<Challenge>>>>,
    pub fri: FriProof,
}

/// The elements of a Merkle cap, root by root.
pub open spec fn cap_z(cap: Seq<Digest>) -> Seq<int> {
    Seq::new(4 * cap.len(), |i: int| cap[i / 4]@[i % 4] as int)
}

pub fn cap_felts(cap: &Vec<Digest>) -> (r: Vec<u64>)
    ensures
        ints(r@) == cap_z(cap@),
{
    let n: usize = cap.len();
    let mut r: Vec<u64> = Vec::new();
    for i in 0..n
        invariant
            n == cap.len(),
            r.len() == 4 * i,
            forall|j: int| 0 <= j < 4 * i ==> #[trigger] r@[j] == cap@[j / 4]@[j % 4],
    {
        let d: Digest = cap[i];
        r.push(d[0]);
        r.push(d[1]);
        r.push(d[2]);
        r.push(d[3]);
        assert forall|j: int| 0 <= j < 4 * (i + 1) implies #[trigger] r@[j] == cap@[j / 4]@[j % 4] by {
            if j >= 4 * i {
                assert(j / 4 == i);
            }
        }
    }
    assert(ints(r@) =~= cap_z(cap@));
    r
}

/// The elements that go in before the first challenge: the sizes, the trace commitment, the public
/// values.
pub open spec fn instance_z(p: PlainProof, base_degree_bits: int, pvs: Seq<int>) -> Seq<int> {
    seq![p.degree_bits as int, base_degree_bits, 0] + cap_z(p.trace_cap@) + pvs
}

/// Appends elements.
fn join(r: &mut Vec<u64>, more: &[u64])
    ensures
        ints(final(r)@) == ints(old(r)@) + ints(more@),
{
    let n: usize = more.len();
    for i in 0..n
        invariant
            n == more@.len(),
            r@ == old(r)@ + more@.take(i as int),
    {
        r.push(more[i]);
        assert(r@ =~= old(r)@ + more@.take(i + 1));
    }
    assert(ints(r@) =~= ints(old(r)@) + ints(more@));
}

pub fn instance_felts(p: &PlainProof, base_degree_bits: usize, pvs: &[u64]) -> (r: Vec<u64>)
    ensures
        ints(r@) == instance_z(*p, base_degree_bits as int, ints(pvs@)),
{
    let mut r: Vec<u64> = vec![p.degree_bits as u64, base_degree_bits as u64, 0];
    assert(ints(r@) =~= seq![p.degree_bits as int, base_degree_bits as int, 0]);
    let cap: Vec<u64> = cap_felts(&p.trace_cap);
    join(&mut r, cap.as_slice());
    join(&mut r, pvs);
    r
}

/// The random commitment of a proof, which nothing but the check of a hiding proof looks at.
pub open spec fn random_seen(p: PlainProof, hiding: bool) -> Option<Vec<Digest>> {
    if hiding {
        p.random_cap
    } else {
        None
    }
}

/// The elements that go in before the out-of-domain point: the quotient commitment, and the random
/// one of a hiding proof where there is one.
pub open spec fn commitment_z(p: PlainProof, hiding: bool) -> Seq<int> {
    cap_z(p.quotient_cap@) + (match random_seen(p, hiding) {
        Some(c) => cap_z(c@),
        None => seq![],
    })
}

pub fn commitment_felts(p: &PlainProof, hiding: bool) -> (r: Vec<u64>)
    ensures
        ints(r@) == commitment_z(*p, hiding),
{
    let mut r: Vec<u64> = cap_felts(&p.quotient_cap);
    assert(ints(r@) + Seq::<int>::empty() =~= ints(r@));
    if hiding {
        match &p.random_cap {
            Some(c) => {
                let cap: Vec<u64> = cap_felts(c);
                join(&mut r, cap.as_slice());
            },
            None => {},
        }
    }
    r
}

/// The lists of extension elements, one behind the other.
pub open spec fn flat(xs: Seq<Vec<Challenge>>, n: nat) -> Seq<(int, int)>
    decreases n,
{
    if n == 0 {
        seq![]
    } else {
        flat(xs, (n - 1) as nat) + views(xs[n - 1]@)
    }
}

/// Appends extension elements.
fn join_exts(r: &mut Vec<Challenge>, more: &Vec<Challenge>)
    ensures
        views(final(r)@) == views(old(r)@) + views(more@),
{
    let n: usize = more.len();
    for i in 0..n
        invariant
            n == more.len(),
            r@ == old(r)@ + more@.take(i as int),
    {
        r.push(more[i]);
        assert(r@ =~= old(r)@ + more@.take(i + 1));
    }
    assert(views(r@) =~= views(old(r)@) + views(more@));
}

/// The opened values in the order in which they go in: the trace at the point and at the next one,
/// then the quotient chunks.
pub open spec fn opened_z(p: PlainProof) -> Seq<(int, int)> {
    views(p.trace_local@) + (match p.trace_next {
        Some(v) => views(v@),
        None => seq![],
    }) + flat(p.quotient_chunks@, p.quotient_chunks@.len())
}

pub fn opened_exts(p: &PlainProof) -> (r: Vec<Challenge>)
    ensures
        views(r@) == opened_z(*p),
{
    let mut r: Vec<Challenge> = Vec::new();
    assert(views(r@) =~= Seq::<(int, int)>::empty());
    join_exts(&mut r, &p.trace_local);
    match &p.trace_next {
        Some(v) => {
            join_exts(&mut r, v);
        },
        None => {},
    }
    let ghost head = views(r@);
    proof {
        assert(head =~= views(p.trace_local@) + (match p.trace_next {
            Some(v) => views(v@),
            None => seq![],
        }));
    }
    let n: usize = p.quotient_chunks.len();
    assert(head + flat(p.quotient_chunks@, 0) =~= head);
    for i in 0..n
        invariant
            n == p.quotient_chunks.len(),
            views(r@) == head + flat(p.quotient_chunks@, i as nat),
    {
        join_exts(&mut r, &p.quotient_chunks[i]);
        assert(views(r@) =~= head + flat(p.quotient_chunks@, (i + 1) as nat));
    }
    r
}

/// The round of the trace among the openings: behind the random one, where there is one.
pub open spec fn trace_round(p: PlainProof) -> int {
    if p.random is Some {
        1
    } else {
        0
    }
}

/// The random codewords of the quotient chunks.
pub open spec fn chunk_codewords(p: PlainProof) -> Seq<Vec<Vec<Challenge>>> {
    p.codewords@[trace_round(p) + 1]@
}

/// The opened values of a hiding proof, each list with its random codewords behind it: the random
/// round where there is one, the trace round, the quotient round.
pub open spec fn hiding_opened_z(p: PlainProof) -> Seq<(int, int)> {
    let t = trace_round(p);
    (match p.random {
        Some(v) => views(v@) + views(p.codewords@[0]@[0]@[0]@),
        None => seq![],
    }) + (views(p.trace_local@) + views(p.codewords@[t]@[0]@[0]@)) + (match p.trace_next {
        Some(v) => views(v@) + views(p.codewords@[t]@[0]@[1]@),
        None => seq![],
    }) + merged(p.quotient_chunks@, chunk_codewords(p), p.quotient_chunks@.len())
}

/// The quotient chunks, each with its codewords behind it.
pub open spec fn merged(xs: Seq<Vec<Challenge>>, cw: Seq<Vec<Vec<Challenge>>>, n: nat) -> Seq<
    (int, int),
>
    decreases n,
{
    if n == 0 {
        seq![]
    } else {
        merged(xs, cw, (n - 1) as nat) + (views(xs[n - 1]@) + views(cw[n - 1]@[0]@))
    }
}

/// The random codewords that the opened values call for are there.
pub open spec fn codewords_ok(p: PlainProof) -> bool {
    let t = trace_round(p);
    let cw = p.codewords@;
    &&& t + 2 <= cw.len()
    &&& p.random is Some ==> cw[0]@.len() >= 1 && cw[0]@[0]@.len() >= 1
    &&& cw[t]@.len() >= 1
    &&& cw[t]@[0]@.len() >= (if p.trace_next is Some {
        2int
    } else {
        1int
    })
    &&& chunk_codewords(p).len() >= p.quotient_chunks@.len()
    &&& forall|i: int|
        0 <= i < p.quotient_chunks@.len() ==> (#[trigger] chunk_codewords(p)[i])@.len() >= 1
}

/// Whether the random codewords that the opened values call for are there.
pub fn codewords_are_ok(p: &PlainProof) -> (r: bool)
    ensures
        r == codewords_ok(*p),
{
    let t: usize = if p.random.is_some() {
        1
    } else {
        0
    };
    if p.codewords.len() < t + 2 {
        return false;
    }
    if t == 1 && (p.codewords[0].len() < 1 || p.codewords[0][0].len() < 1) {
        return false;
    }
    let need: usize = if p.trace_next.is_some() {
        2
    } else {
        1
    };
    if p.codewords[t].len() < 1 || p.codewords[t][0].len() < need {
        return false;
    }
    let n: usize = p.quotient_chunks.len();
    if p.codewords[t + 1].len() < n {
        return false;
    }
    for i in 0..n
        invariant
            n == p.quotient_chunks.len(),
            t == trace_round(*p),
            t + 2 <= p.codewords.len(),
            n <= p.codewords@[t + 1]@.len(),
            forall|j: int| 0 <= j < i ==> (#[trigger] chunk_codewords(*p)[j])@.len() >= 1,
    {
        if p.codewords[t + 1][i].len() < 1 {
            assert(chunk_codewords(*p)[i as int]@.len() < 1);
            return false;
        }
    }
    true
}

pub fn hiding_opened_exts(p: &PlainProof) -> (r: Vec<Challenge>)
    requires
        codewords_ok(*p),
    ensures
        views(r@) == hiding_opened_z(*p),
{
    let mut r: Vec<Challenge> = Vec::new();
    assert(views(r@) =~= Seq::<(int, int)>::empty());
    let mut t: usize = 0;
    match &p.random {
        Some(v) => {
            join_exts(&mut r, v);
            join_exts(&mut r, &p.codewords[0][0][0]);
            t = 1;
        },
        None => {},
    }
    let ghost a = views(r@);
    proof {
        assert(a =~= (match p.random {
            Some(v) => views(v@) + views(p.codewords@[0]@[0]@[0]@),
            None => seq![],
        }));
    }
    join_exts(&mut r, &p.trace_local);
    join_exts(&mut r, &p.codewords[t][0][0]);
    let ghost b = views(p.trace_local@) + views(p.codewords@[t as int]@[0]@[0]@);
    assert(views(r@) =~= a + b);
    match &p.trace_next {
        Some(v) => {
            join_exts(&mut r, v);
            join_exts(&mut r, &p.codewords[t][0][1]);
        },
        None => {},
    }
    let ghost c: Seq<(int, int)> = match &p.trace_next {
        Some(v) => views(v@) + views(p.codewords@[t as int]@[0]@[1]@),
        None => seq![],
    };
    assert(views(r@) =~= a + b + c);
    let n: usize = p.quotient_chunks.len();
    let ghost cw = p.codewords@[t + 1]@;
    assert forall|j: int| 0 <= j < n implies (#[trigger] cw[j])@.len() >= 1 by {
        assert(chunk_codewords(*p)[j]@.len() >= 1);
    }
    assert(a + b + c + merged(p.quotient_chunks@, cw, 0) =~= a + b + c);
    for i in 0..n
        invariant
            n == p.quotient_chunks.len(),
            t + 2 <= p.codewords.len(),
            cw == p.codewords@[t + 1]@,
            n <= cw.len(),
            forall|j: int| 0 <= j < n ==> (#[trigger] cw[j])@.len() >= 1,
            views(r@) == a + b + c + merged(p.quotient_chunks@, cw, i as nat),
    {
        assert(cw[i as int]@.len() >= 1);
        join_exts(&mut r, &p.quotient_chunks[i]);
        join_exts(&mut r, &p.codewords[t + 1][i][0]);
        assert(views(r@) =~= a + b + c + merged(p.quotient_chunks@, cw, (i + 1) as nat));
    }
    r
}

/// The logarithmic arities of the fold rounds, as the first query gives them; none without a query.
pub open spec fn arities_z(f: FriProof) -> Seq<int> {
    if f.query_proofs.len() == 0 {
        seq![]
    } else {
        let o = f.query_proofs@[0].commit_phase_openings@;
        Seq::new(o.len(), |i: int| o[i].log_arity as int)
    }
}

pub fn log_arities(f: &FriProof) -> (r: Vec<u64>)
    ensures
        ints(r@) == arities_z(*f),
{
    let mut r: Vec<u64> = Vec::new();
    if f.query_proofs.len() > 0 {
        let n: usize = f.query_proofs[0].commit_phase_openings.len();
        for i in 0..n
            invariant
                f.query_proofs.len() > 0,
                n == f.query_proofs@[0].commit_phase_openings@.len(),
                r.len() == i,
                forall|j: int|
                    0 <= j < i ==> #[trigger] r@[j]
                        == f.query_proofs@[0].commit_phase_openings@[j].log_arity,
        {
            r.push(f.query_proofs[0].commit_phase_openings[i].log_arity as u64);
        }
    }
    assert(ints(r@) =~= arities_z(*f));
    r
}

/// The sum of the first `n` elements.
pub open spec fn sum_z(s: Seq<int>, n: nat) -> int
    decreases n,
{
    if n == 0 {
        0
    } else {
        sum_z(s, (n - 1) as nat) + s[n - 1]
    }
}

pub proof fn lemma_sum_bound(s: Seq<int>, n: nat)
    requires
        n <= s.len(),
        forall|i: int| 0 <= i < s.len() ==> 0 <= #[trigger] s[i] <= 255,
    ensures
        0 <= sum_z(s, n) <= 255 * n,
    decreases n,
{
    if n > 0 {
        lemma_sum_bound(s, (n - 1) as nat);
    }
}

/// The logarithm of the largest height that the folds start from: the sum of the arities, on top of
/// the blowup and the length of the final polynomial.
pub fn log_global_height(f: &FriProof, log_blowup: usize, log_final_poly_len: usize) -> (r: usize)
    requires
        255 * arities_z(*f).len() + log_blowup + log_final_poly_len <= usize::MAX,
    ensures
        r == sum_z(arities_z(*f), arities_z(*f).len()) + log_blowup + log_final_poly_len,
{
    let a: Vec<u64> = log_arities(f);
    let n: usize = a.len();
    let ghost z = arities_z(*f);
    proof {
        assert(ints(a@).len() == z.len());
        assert forall|i: int| 0 <= i < z.len() implies 0 <= #[trigger] z[i] <= 255 by {}
    }
    let mut s: usize = 0;
    for i in 0..n
        invariant
            n == a.len(),
            z == ints(a@),
            n == z.len(),
            255 * n <= usize::MAX,
            forall|i: int| 0 <= i < z.len() ==> 0 <= #[trigger] z[i] <= 255,
            s == sum_z(z, i as nat),
    {
        proof {
            lemma_sum_bound(z, i as nat);
            assert(z[i as int] == a@[i as int]);
        }
        s = s + a[i] as usize;
    }
    proof {
        lemma_sum_bound(z, n as nat);
    }
    s + log_blowup + log_final_poly_len
}

} // verus!
