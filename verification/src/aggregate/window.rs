//! The window of an inner proof: the values that its region of the aggregate trace shows, and the
//! openings of its queries.
use super::fault::LayoutFault;
use super::options::AggregationError;
use crate::challenger::views;
use crate::epilogue::folded_z;
use crate::expr::Trace;
use crate::field::{eadd, emul, ered, ezero, ints, zmul, Challenge};
use crate::merkle::{path_z, Digest};
use crate::mmcs::{index_path, path_of};
use crate::plain_proof::{
    cap_felts, cap_z, random_seen, CommitOpening, FriProof, PlainProof, QueryProof,
};
use vstd::prelude::*;

verus! {

/// The first arity of the first `n` openings that is not that of a pair.
pub open spec fn wide_opening(o: Seq<CommitOpening>, n: nat) -> Option<int>
    decreases n,
{
    if n == 0 {
        None
    } else {
        match wide_opening(o, (n - 1) as nat) {
            Some(a) => Some(a),
            None => if o[n - 1].log_arity != 1 {
                Some(o[n - 1].log_arity as int)
            } else {
                None
            },
        }
    }
}

/// The first arity of the first `n` queries that is not that of a pair.
pub open spec fn wide_query(q: Seq<QueryProof>, n: nat) -> Option<int>
    decreases n,
{
    if n == 0 {
        None
    } else {
        match wide_query(q, (n - 1) as nat) {
            Some(a) => Some(a),
            None => wide_opening(
                q[n - 1].commit_phase_openings@,
                q[n - 1].commit_phase_openings@.len(),
            ),
        }
    }
}

proof fn lemma_wide_opening(o: Seq<CommitOpening>, k: nat, n: nat)
    requires
        k <= n,
        wide_opening(o, k) is Some,
    ensures
        wide_opening(o, n) == wide_opening(o, k),
    decreases n - k,
{
    if k < n {
        lemma_wide_opening(o, k, (n - 1) as nat);
    }
}

proof fn lemma_wide_query(q: Seq<QueryProof>, k: nat, n: nat)
    requires
        k <= n,
        wide_query(q, k) is Some,
    ensures
        wide_query(q, n) == wide_query(q, k),
    decreases n - k,
{
    if k < n {
        lemma_wide_query(q, k, (n - 1) as nat);
    }
}

/// Whether every round of every query folds a pair.
pub fn validate_binary_fri_shape(f: &FriProof) -> (r: Result<(), AggregationError>)
    ensures
        match r {
            Ok(()) => wide_query(f.query_proofs@, f.query_proofs@.len()) is None,
            Err(e) => {
                &&& wide_query(f.query_proofs@, f.query_proofs@.len()) is Some
                &&& e == (AggregationError::UnsupportedFriArity {
                    log_arity: wide_query(f.query_proofs@, f.query_proofs@.len())->0 as usize,
                })
            },
        },
{
    let n: usize = f.query_proofs.len();
    for q in 0..n
        invariant
            n == f.query_proofs.len(),
            wide_query(f.query_proofs@, q as nat) is None,
    {
        let ghost o = f.query_proofs@[q as int].commit_phase_openings@;
        let m: usize = f.query_proofs[q].commit_phase_openings.len();
        for i in 0..m
            invariant
                q < n,
                n == f.query_proofs.len(),
                o == f.query_proofs@[q as int].commit_phase_openings@,
                m == o.len(),
                wide_query(f.query_proofs@, q as nat) is None,
                wide_opening(o, i as nat) is None,
        {
            let log_arity: usize = f.query_proofs[q].commit_phase_openings[i].log_arity as usize;
            if log_arity != 1 {
                proof {
                    lemma_wide_opening(o, (i + 1) as nat, m as nat);
                    lemma_wide_query(f.query_proofs@, (q + 1) as nat, n as nat);
                }
                return Err(AggregationError::UnsupportedFriArity { log_arity });
            }
        }
    }
    Ok(())
}

/// A salt of four elements.
pub fn salt4(salt: &Vec<u64>) -> (r: Result<[u64; 4], AggregationError>)
    ensures
        match r {
            Ok(s) => s@ == salt@,
            Err(e) => salt.len() != 4 && e == AggregationError::TraceLayout(
                LayoutFault::SaltLength,
            ),
        },
{
    if salt.len() != 4 {
        return Err(AggregationError::TraceLayout(LayoutFault::SaltLength));
    }
    let s: [u64; 4] = [salt[0], salt[1], salt[2], salt[3]];
    assert(s@ =~= salt@);
    Ok(s)
}

/// The salts of a query's rows and groups, and the path of its random row.
#[derive(Debug)]
pub struct HidingWitness {
    pub trace_salt: [u64; 4],
    pub random_salt: [u64; 4],
    pub random_path: Vec<(Digest, bool)>,
    pub quot_salts: Vec<[u64; 4]>,
    pub commit_salts: Vec<[u64; 4]>,
}

/// Whether one of the salts has another length than four.
pub open spec fn bad_salts(q: QueryProof) -> bool {
    let quot = q.input_proof@[2].salts@;
    let commits = q.commit_phase_openings@;
    ||| q.input_proof@[1].salts@[0].len() != 4
    ||| q.input_proof@[0].salts@[0].len() != 4
    ||| exists|i: int| 0 <= i < quot.len() && (#[trigger] quot[i]).len() != 4
    ||| exists|i: int| 0 <= i < commits.len() && (#[trigger] commits[i]).salts@[0].len() != 4
}

/// The salts that are looked at are there.
pub open spec fn salted(q: QueryProof) -> bool {
    q.input_proof.len() >= 3 ==> {
        &&& q.input_proof@[0].salts.len() > 0
        &&& q.input_proof@[1].salts.len() > 0
        &&& forall|i: int|
            0 <= i < q.commit_phase_openings.len() ==> (
            #[trigger] q.commit_phase_openings@[i]).salts.len() > 0
    }
}

/// The salts of a query are those of its rows and groups.
pub open spec fn witness_is(w: HidingWitness, q: QueryProof, index: int) -> bool {
    &&& q.input_proof.len() >= 3
    &&& w.trace_salt@ == q.input_proof@[1].salts@[0]@
    &&& w.random_salt@ == q.input_proof@[0].salts@[0]@
    &&& path_z(w.random_path@) == index_path(q.input_proof@[0].path@, index)
    &&& w.quot_salts.len() == q.input_proof@[2].salts.len()
    &&& forall|i: int|
        #![trigger w.quot_salts@[i]]
        0 <= i < w.quot_salts.len() ==> w.quot_salts@[i]@ == q.input_proof@[2].salts@[i]@
    &&& w.commit_salts.len() == q.commit_phase_openings.len()
    &&& forall|i: int|
        #![trigger w.commit_salts@[i]]
        0 <= i < w.commit_salts.len() ==> w.commit_salts@[i]@
            == q.commit_phase_openings@[i].salts@[0]@
}

/// The salts of a query: of its random, trace and quotient rounds and of its commit rounds.
pub fn hiding_witness_for_query(q: &QueryProof, index: usize) -> (r: Result<
    HidingWitness,
    AggregationError,
>)
    requires
        salted(*q),
    ensures
        match r {
            Ok(w) => witness_is(w, *q, index as int),
            Err(e) => if q.input_proof.len() < 3 {
                e == AggregationError::TraceLayout(LayoutFault::MissingRounds)
            } else {
                bad_salts(*q) && e == AggregationError::TraceLayout(LayoutFault::SaltLength)
            },
        },
{
    if q.input_proof.len() < 3 {
        return Err(AggregationError::TraceLayout(LayoutFault::MissingRounds));
    }
    let random_path: Vec<(Digest, bool)> = path_of(&q.input_proof[0].path, index);
    let trace_salt: [u64; 4] = match salt4(&q.input_proof[1].salts[0]) {
        Err(e) => {
            return Err(e);
        },
        Ok(s) => s,
    };
    let random_salt: [u64; 4] = match salt4(&q.input_proof[0].salts[0]) {
        Err(e) => {
            return Err(e);
        },
        Ok(s) => s,
    };
    let mut quot_salts: Vec<[u64; 4]> = Vec::new();
    let n: usize = q.input_proof[2].salts.len();
    for i in 0..n
        invariant
            q.input_proof.len() >= 3,
            n == q.input_proof@[2].salts.len(),
            quot_salts.len() == i,
            forall|j: int|
                #![trigger quot_salts@[j]]
                0 <= j < i ==> quot_salts@[j]@ == q.input_proof@[2].salts@[j]@,
    {
        match salt4(&q.input_proof[2].salts[i]) {
            Err(e) => {
                assert(q.input_proof@[2].salts@[i as int].len() != 4);
                return Err(e);
            },
            Ok(s) => {
                quot_salts.push(s);
            },
        }
    }
    let mut commit_salts: Vec<[u64; 4]> = Vec::new();
    let m: usize = q.commit_phase_openings.len();
    for i in 0..m
        invariant
            salted(*q),
            q.input_proof.len() >= 3,
            m == q.commit_phase_openings.len(),
            commit_salts.len() == i,
            forall|j: int|
                #![trigger commit_salts@[j]]
                0 <= j < i ==> commit_salts@[j]@ == q.commit_phase_openings@[j].salts@[0]@,
    {
        assert(q.commit_phase_openings@[i as int].salts.len() > 0);
        match salt4(&q.commit_phase_openings[i].salts[0]) {
            Err(e) => {
                return Err(e);
            },
            Ok(s) => {
                commit_salts.push(s);
            },
        }
    }
    Ok(HidingWitness { trace_salt, random_salt, random_path, quot_salts, commit_salts })
}

/// Extension elements, coordinate by coordinate.
pub open spec fn coords(xs: Seq<(int, int)>) -> Seq<int> {
    crate::mmcs::flattened(xs)
}

fn push_ext(out: &mut Vec<u64>, x: Challenge)
    ensures
        ints(final(out)@) == ints(old(out)@) + seq![x@.0, x@.1],
{
    out.push(x.c0);
    out.push(x.c1);
    assert(ints(out@) =~= ints(old(out)@) + seq![x@.0, x@.1]);
}

fn push_exts(out: &mut Vec<u64>, xs: &Vec<Challenge>)
    ensures
        ints(final(out)@) == ints(old(out)@) + coords(views(xs@)),
{
    let ghost start = ints(out@);
    let ghost all = coords(views(xs@));
    let n: usize = xs.len();
    assert(start + all.take(0) =~= start);
    for i in 0..n
        invariant
            n == xs.len(),
            all == coords(views(xs@)),
            ints(out@) == start + all.take(2 * i),
    {
        push_ext(out, xs[i]);
        proof {
            let k = 2 * i as int;
            assert(k / 2 == i && (k + 1) / 2 == i && k % 2 == 0 && (k + 1) % 2 == 1);
            assert(all[k] == xs@[i as int]@.0 && all[k + 1] == xs@[i as int]@.1);
            assert(ints(out@) =~= start + all.take(2 * (i + 1)));
        }
    }
    assert(all.take(2 * n) =~= all);
}

fn push_all(out: &mut Vec<u64>, more: &Vec<u64>)
    ensures
        ints(final(out)@) == ints(old(out)@) + ints(more@),
{
    let ghost start = out@;
    let n: usize = more.len();
    for i in 0..n
        invariant
            n == more.len(),
            out@ == start + more@.take(i as int),
    {
        out.push(more[i]);
        assert(out@ =~= start + more@.take(i + 1));
    }
    assert(ints(out@) =~= ints(start) + ints(more@));
}

/// The caps of the first `n` commit rounds, one behind the other.
pub open spec fn commit_caps(commits: Seq<Vec<Digest>>, n: nat) -> Seq<int>
    decreases n,
{
    if n == 0 {
        seq![]
    } else {
        commit_caps(commits, (n - 1) as nat) + cap_z(commits[n - 1]@)
    }
}

/// What the window of a proof shows: its challenges, its index elements, the constant of the final
/// polynomial, the caps of the trace and the quotient, the public values, the caps of the commit
/// rounds, the periodic values at the out-of-domain point, the weights of several quotient chunks, and
/// the random cap of a hiding proof where there is one.
pub open spec fn window_z(
    p: PlainProof,
    challenges: Seq<(int, int)>,
    index_felts: Seq<int>,
    final0: (int, int),
    pvs: Seq<int>,
    periodic: Seq<(int, int)>,
    weights: Seq<(int, int)>,
    hiding: bool,
) -> Seq<int> {
    coords(challenges) + index_felts + seq![final0.0, final0.1] + cap_z(p.trace_cap@) + cap_z(
        p.quotient_cap@,
    ) + pvs + commit_caps(p.fri.commit_phase_commits@, p.fri.commit_phase_commits@.len()) + coords(
        periodic,
    ) + coords(weights) + (match random_seen(p, hiding) {
        Some(c) => cap_z(c@),
        None => seq![],
    })
}

/// The values that the window of a proof shows. `weights` is empty where there is one quotient chunk.
pub fn public_window(
    p: &PlainProof,
    challenges: &Vec<Challenge>,
    index_felts: &Vec<u64>,
    final0: Challenge,
    pvs: &Vec<u64>,
    periodic: &Vec<Challenge>,
    weights: &Vec<Challenge>,
    hiding: bool,
) -> (r: Vec<u64>)
    ensures
        ints(r@) == window_z(
            *p,
            views(challenges@),
            ints(index_felts@),
            final0@,
            ints(pvs@),
            views(periodic@),
            views(weights@),
            hiding,
        ),
{
    let mut out: Vec<u64> = Vec::new();
    assert(ints(out@) =~= Seq::<int>::empty());
    push_exts(&mut out, challenges);
    assert(ints(out@) =~= coords(views(challenges@)));
    push_all(&mut out, index_felts);
    push_ext(&mut out, final0);
    let cap: Vec<u64> = cap_felts(&p.trace_cap);
    push_all(&mut out, &cap);
    let cap: Vec<u64> = cap_felts(&p.quotient_cap);
    push_all(&mut out, &cap);
    push_all(&mut out, pvs);
    let ghost front = ints(out@);
    let n: usize = p.fri.commit_phase_commits.len();
    assert(front + commit_caps(p.fri.commit_phase_commits@, 0) =~= front);
    for r in 0..n
        invariant
            n == p.fri.commit_phase_commits.len(),
            ints(out@) == front + commit_caps(p.fri.commit_phase_commits@, r as nat),
    {
        let cap: Vec<u64> = cap_felts(&p.fri.commit_phase_commits[r]);
        push_all(&mut out, &cap);
        assert(ints(out@) =~= front + commit_caps(p.fri.commit_phase_commits@, (r + 1) as nat));
    }
    push_exts(&mut out, periodic);
    push_exts(&mut out, weights);
    assert(ints(out@) + Seq::<int>::empty() =~= ints(out@));
    if hiding {
        match &p.random_cap {
            Some(c) => {
                let cap: Vec<u64> = cap_felts(c);
                push_all(&mut out, &cap);
            },
            None => {},
        }
    }
    out
}

/// The accumulators of a fold in chunks: its value behind every whole chunk but the last.
pub open spec fn chunk_accs(values: Seq<(int, int)>, alpha: (int, int), chunk: int, n: nat) -> Seq<
    (int, int),
>
    decreases n,
{
    if n == 0 {
        seq![]
    } else {
        let before = chunk_accs(values, alpha, chunk, (n - 1) as nat);
        if n as int % chunk == 0 && n < values.len() {
            before.push(folded_z(values, alpha, n))
        } else {
            before
        }
    }
}

/// The selectors of the first and the last row and the inverse of the vanishing polynomial, at the
/// out-of-domain point, and behind them the accumulators of the folded constraints.
pub open spec fn selectors_z(
    is_first: (int, int),
    is_last: (int, int),
    inv_van: (int, int),
    values: Seq<(int, int)>,
    alpha: (int, int),
    chunk: int,
) -> Seq<int> {
    seq![is_first.0, is_first.1, is_last.0, is_last.1, inv_van.0, inv_van.1] + coords(
        chunk_accs(values, alpha, chunk, values.len()),
    )
}

/// The selector cells of a window, and the value of all constraints folded.
pub fn selector_window(
    is_first: Challenge,
    is_last: Challenge,
    inv_van: Challenge,
    values: &Vec<Challenge>,
    alpha: Challenge,
    chunk: usize,
) -> (r: (Vec<u64>, Challenge))
    requires
        chunk > 0,
    ensures
        ints(r.0@) == selectors_z(
            is_first@,
            is_last@,
            inv_van@,
            views(values@),
            alpha@,
            chunk as int,
        ),
        r.1@ == folded_z(views(values@), alpha@, values@.len()),
{
    let mut out: Vec<u64> = vec![
        is_first.c0,
        is_first.c1,
        is_last.c0,
        is_last.c1,
        inv_van.c0,
        inv_van.c1,
    ];
    let ghost head = seq![is_first@.0, is_first@.1, is_last@.0, is_last@.1, inv_van@.0, inv_van@.1];
    assert(ints(out@) =~= head);
    let ghost vs = views(values@);
    let mut folded: Challenge = ezero();
    let n: usize = values.len();
    assert(head + coords(chunk_accs(vs, alpha@, chunk as int, 0)) =~= head);
    for k in 0..n
        invariant
            n == values.len(),
            chunk > 0,
            vs == views(values@),
            folded@ == folded_z(vs, alpha@, k as nat),
            ints(out@) == head + coords(chunk_accs(vs, alpha@, chunk as int, k as nat)),
    {
        proof {
            let m = zmul(folded@, alpha@);
            crate::field::lemma_ered(m);
            crate::field::lemma_econg_add(ered(m), m, vs[k as int], vs[k as int]);
        }
        folded = eadd(emul(folded, alpha), values[k]);
        let ghost accs = chunk_accs(vs, alpha@, chunk as int, k as nat);
        if (k + 1) % chunk == 0 && k + 1 < n {
            push_ext(&mut out, folded);
            proof {
                let more = accs.push(folded@);
                let len = accs.len();
                assert((2 * len) / 2 == len && (2 * len + 1) / 2 == len && (2 * len) % 2 == 0 && (2
                    * len + 1) % 2 == 1);
                assert(coords(more) =~= coords(accs) + seq![folded@.0, folded@.1]);
                assert(ints(out@) =~= head + coords(more));
            }
        }
    }
    (out, folded)
}

/// A row with a window over it from a column on.
pub open spec fn overlaid(row: Seq<u64>, base: int, window: Seq<u64>) -> Seq<u64> {
    Seq::new(
        row.len(),
        |c: int|
            if base <= c < base + window.len() {
                window[c - base]
            } else {
                row[c]
            },
    )
}

/// Lays a window over a row.
pub fn overlay(row: &mut Vec<u64>, base: usize, window: &Vec<u64>)
    requires
        base + window.len() <= old(row).len(),
    ensures
        final(row)@ == overlaid(old(row)@, base as int, window@),
{
    let n: usize = window.len();
    let ghost start = row@;
    for i in 0..n
        invariant
            n == window.len(),
            base + n <= row.len(),
            row.len() == start.len(),
            forall|c: int|
                0 <= c < start.len() ==> #[trigger] row@[c] == (if base <= c < base + i {
                    window@[c - base]
                } else {
                    start[c]
                }),
    {
        row.set(base + i, window[i]);
    }
    assert(row@ =~= overlaid(start, base as int, window@));
}

/// Lays the selector cells over every row.
pub fn apply_selector_window(rows: &mut Trace, base: usize, window: &Vec<u64>)
    requires
        forall|r: int|
            0 <= r < old(rows).len() ==> base + window.len() <= (#[trigger] old(rows)@[r]).len(),
    ensures
        final(rows).len() == old(rows).len(),
        forall|r: int|
            0 <= r < old(rows).len() ==> (#[trigger] final(rows)@[r])@ == overlaid(
                old(rows)@[r]@,
                base as int,
                window@,
            ),
{
    let n: usize = rows.len();
    let mut out: Trace = Vec::new();
    for r in 0..n
        invariant
            n == rows.len(),
            rows@ == old(rows)@,
            forall|r: int|
                0 <= r < rows.len() ==> base + window.len() <= (#[trigger] rows@[r]).len(),
            out.len() == r,
            forall|k: int|
                0 <= k < r ==> (#[trigger] out@[k])@ == overlaid(
                    rows@[k]@,
                    base as int,
                    window@,
                ),
    {
        assert(base + window.len() <= rows@[r as int].len());
        let mut row: Vec<u64> = copy_row(&rows[r]);
        overlay(&mut row, base, window);
        out.push(row);
    }
    *rows = out;
}

pub fn copy_row(row: &Vec<u64>) -> (r: Vec<u64>)
    ensures
        r@ == row@,
{
    let n: usize = row.len();
    let mut r: Vec<u64> = Vec::new();
    for i in 0..n
        invariant
            n == row.len(),
            r@ == row@.take(i as int),
    {
        r.push(row[i]);
        assert(r@ =~= row@.take(i + 1));
    }
    assert(r@ =~= row@);
    r
}

/// The squares of a point: `z^2, z^4, ...`, `n` of them.
pub open spec fn squares_z(z: (int, int), n: nat) -> Seq<(int, int)>
    decreases n,
{
    if n == 0 {
        seq![]
    } else {
        let before = squares_z(z, (n - 1) as nat);
        let last = if n == 1 {
            z
        } else {
            before.last()
        };
        before.push(ered(zmul(last, last)))
    }
}

/// What every row of a window shows: the window, and behind it the squares of the out-of-domain point.
pub fn window_schedule(window: &Vec<u64>, rounds: usize) -> (r: Vec<u64>)
    requires
        window.len() >= 4,
    ensures
        ints(r@) == ints(window@) + coords(
            squares_z((window@[2] as int, window@[3] as int), rounds as nat),
        ),
{
    let mut out: Vec<u64> = copy_row(window);
    let mut s: Challenge = Challenge { c0: window[2], c1: window[3] };
    let ghost z = s@;
    assert(ints(window@) + coords(squares_z(z, 0)) =~= ints(window@));
    for k in 0..rounds
        invariant
            ints(out@) == ints(window@) + coords(squares_z(z, k as nat)),
            squares_z(z, k as nat).len() == k,
            s@ == (if k == 0 {
                z
            } else {
                squares_z(z, k as nat).last()
            }),
    {
        s = emul(s, s);
        let ghost before = squares_z(z, k as nat);
        push_ext(&mut out, s);
        proof {
            let more = before.push(s@);
            let len = before.len();
            assert((2 * len) / 2 == len && (2 * len + 1) / 2 == len && (2 * len) % 2 == 0 && (2 * len
                + 1) % 2 == 1);
            assert(coords(more) =~= coords(before) + seq![s@.0, s@.1]);
            assert(ints(out@) =~= ints(window@) + coords(more));
        }
    }
    out
}

/// A padding row: zero but for the batching challenge, the schedule and the selectors.
pub open spec fn padding_row(
    width: int,
    carry: int,
    alpha: Challenge,
    at: int,
    schedule: Seq<u64>,
    base: int,
    selectors: Seq<u64>,
) -> Seq<u64> {
    let empty = Seq::new(width as nat, |c: int| 0u64);
    overlaid(
        overlaid(overlaid(empty, carry, seq![alpha.c0, alpha.c1]), at, schedule),
        base,
        selectors,
    )
}

/// Lays the batching challenge and the schedule over every row.
pub fn apply_global_columns(
    rows: &mut Trace,
    carry: usize,
    alpha: Challenge,
    at: usize,
    schedule: &Vec<u64>,
)
    requires
        forall|r: int|
            0 <= r < old(rows).len() ==> {
                &&& carry + 2 <= (#[trigger] old(rows)@[r]).len()
                &&& at + schedule.len() <= old(rows)@[r].len()
            },
    ensures
        final(rows).len() == old(rows).len(),
        forall|r: int|
            0 <= r < old(rows).len() ==> (#[trigger] final(rows)@[r])@ == overlaid(
                overlaid(old(rows)@[r]@, carry as int, seq![alpha.c0, alpha.c1]),
                at as int,
                schedule@,
            ),
{
    let ghost start = rows@;
    let pair: Vec<u64> = vec![alpha.c0, alpha.c1];
    assert(pair@ =~= seq![alpha.c0, alpha.c1]);
    apply_selector_window(rows, carry, &pair);
    assert forall|r: int| 0 <= r < start.len() implies at + schedule.len() <= (
    #[trigger] rows@[r]).len() by {
        assert(rows@[r]@ == overlaid(start[r]@, carry as int, pair@));
        assert(at + schedule.len() <= start[r].len());
    }
    apply_selector_window(rows, at, schedule);
}

/// The padding rows of a window.
pub fn fill_padding_rows_with_selector(
    rows: usize,
    width: usize,
    carry: usize,
    alpha: Challenge,
    at: usize,
    schedule: &Vec<u64>,
    base: usize,
    selectors: &Vec<u64>,
) -> (r: Trace)
    requires
        carry + 2 <= width,
        at + schedule.len() <= width,
        base + selectors.len() <= width,
    ensures
        r.len() == rows,
        forall|i: int|
            0 <= i < rows ==> (#[trigger] r@[i])@ == padding_row(
                width as int,
                carry as int,
                alpha,
                at as int,
                schedule@,
                base as int,
                selectors@,
            ),
{
    let ghost empty = Seq::new(width as nat, |c: int| 0u64);
    let mut out: Trace = Vec::new();
    for i in 0..rows
        invariant
            empty == Seq::new(width as nat, |c: int| 0u64),
            out.len() == i,
            forall|k: int| 0 <= k < i ==> (#[trigger] out@[k])@ == empty,
    {
        let row: Vec<u64> = crate::monolith::cells::zero_cells(width);
        assert(row@ =~= empty) by {
            assert(ints(row@).len() == row@.len());
            assert forall|c: int| 0 <= c < width implies row@[c] == 0 by {
                assert(ints(row@)[c] == 0);
            }
        }
        out.push(row);
    }
    apply_global_columns(&mut out, carry, alpha, at, schedule);
    apply_selector_window(&mut out, base, selectors);
    out
}

} // verus!
