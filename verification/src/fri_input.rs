//! The reduced openings of a query: the opened rows of every batch, checked against its commitment
//! and combined height by height.
use crate::bits::{shift_index, shr_z};
use crate::cols::is_pow2;
use crate::field::{
    eadd, ecanonical, emul, eone, ered, esub, ezero, fmul, lemma_econg_add, lemma_econg_mul,
    lemma_econg_sub, lemma_ered, red, zadd, zmul, zsub, Challenge, GENERATOR,
};
use crate::fri_query::{openings_z, FriError, FriParams};
use crate::gadget_laws::reduced_z;
use crate::merkle::Digest;
use crate::mmcs::{mmcs_verify_batch, opening_accepts, rows_z};
use crate::monolith::cells::{inv_at, inverse_at, power_z, Term};
use crate::monolith::general::two_to;
use crate::monolith::query::{opening_of, term_pxs, term_pzs, term_zs};
use crate::native_fri::{query_point, subgroup_point};
use crate::plain_proof::BatchOpening;
use vstd::arithmetic::power2::{lemma_pow2_strictly_increases, pow2};
use vstd::prelude::*;

verus! {

/// A committed matrix over a domain of `2^log_size` points, with the points at which it is opened and
/// the values claimed there.
#[derive(Debug)]
pub struct OpenedMatrix {
    pub log_size: usize,
    pub points: Vec<(Challenge, Vec<Challenge>)>,
}

/// A committed batch of matrices.
#[derive(Debug)]
pub struct OpenedBatch {
    pub cap: Vec<Digest>,
    pub mats: Vec<OpenedMatrix>,
}

/// The logarithm of the height that a matrix is committed at.
pub open spec fn log_height_of(m: OpenedMatrix, log_blowup: int) -> int {
    m.log_size + log_blowup
}

/// The point of a query at a height.
pub open spec fn deep_point(index: int, log_global: int, h: int) -> int {
    red(GENERATOR * query_point(shr_z(index, (log_global - h) as nat), h as nat))
}

/// The terms of one point of a matrix.
pub open spec fn point_terms(row: Seq<u64>, z: Challenge, ps: Seq<Challenge>) -> Seq<Term> {
    Seq::new(ps.len(), |k: int| Term { z, pz: ps[k], px: row[k] })
}

/// The terms of the first `n` points of a matrix.
pub open spec fn mat_terms(row: Seq<u64>, points: Seq<(Challenge, Vec<Challenge>)>, n: nat) -> Seq<
    Term,
>
    decreases n,
{
    if n == 0 {
        seq![]
    } else {
        let (z, ps) = points[n - 1];
        mat_terms(row, points, (n - 1) as nat) + point_terms(row, z, ps@)
    }
}

/// The terms at height `h` of the first `n` matrices of a batch.
pub open spec fn batch_terms(
    rows: Seq<Vec<u64>>,
    mats: Seq<OpenedMatrix>,
    log_blowup: int,
    h: int,
    n: nat,
) -> Seq<Term>
    decreases n,
{
    if n == 0 {
        seq![]
    } else {
        let m = mats[n - 1];
        batch_terms(rows, mats, log_blowup, h, (n - 1) as nat) + (if log_height_of(m, log_blowup)
            == h {
            mat_terms(rows[n - 1]@, m.points@, m.points@.len())
        } else {
            seq![]
        })
    }
}

/// Whether one of the first `n` matrices of a batch has height `h`.
pub open spec fn mats_reach(mats: Seq<OpenedMatrix>, log_blowup: int, h: int, n: nat) -> bool {
    exists|i: int| 0 <= i < n && log_height_of(#[trigger] mats[i], log_blowup) == h
}

/// The terms at height `h` of the first `n` batches.
pub open spec fn all_terms(
    proofs: Seq<BatchOpening>,
    coms: Seq<OpenedBatch>,
    log_blowup: int,
    h: int,
    n: nat,
) -> Seq<Term>
    decreases n,
{
    if n == 0 {
        seq![]
    } else {
        let mats = coms[n - 1].mats@;
        all_terms(proofs, coms, log_blowup, h, (n - 1) as nat) + batch_terms(
            proofs[n - 1].opened_values@,
            mats,
            log_blowup,
            h,
            mats.len(),
        )
    }
}

/// Whether a matrix of the first `n` batches has height `h`.
pub open spec fn reached(coms: Seq<OpenedBatch>, log_blowup: int, h: int, n: nat) -> bool {
    exists|i: int|
        0 <= i < n && #[trigger] mats_reach(coms[i].mats@, log_blowup, h, coms[i].mats@.len())
}

/// The reduced openings of the heights from the largest down, the first `n` of them.
pub open spec fn listed(
    proofs: Seq<BatchOpening>,
    coms: Seq<OpenedBatch>,
    log_blowup: int,
    index: int,
    log_global: int,
    alpha: (int, int),
    n: nat,
) -> Seq<(int, (int, int))>
    decreases n,
{
    if n == 0 {
        seq![]
    } else {
        let h = log_global - (n - 1);
        let before = listed(proofs, coms, log_blowup, index, log_global, alpha, (n - 1) as nat);
        if reached(coms, log_blowup, h, coms.len()) {
            before.push(
                (
                    h,
                    opening_of(
                        all_terms(proofs, coms, log_blowup, h, coms.len()),
                        deep_point(index, log_global, h),
                        alpha,
                    ),
                ),
            )
        } else {
            before
        }
    }
}

/// What the first `n` points of a matrix fail on.
pub open spec fn points_fail(
    row: Seq<u64>,
    points: Seq<(Challenge, Vec<Challenge>)>,
    x: int,
    n: nat,
) -> Option<FriError>
    decreases n,
{
    if n == 0 {
        None
    } else {
        let (z, ps) = points[n - 1];
        match points_fail(row, points, x, (n - 1) as nat) {
            Some(e) => Some(e),
            None => if row.len() != ps.len() {
                Some(FriError::PointCount)
            } else if ered((z@.0 - x, z@.1)) == (0int, 0int) {
                Some(FriError::PointMatchesQuery)
            } else {
                None
            },
        }
    }
}

/// What the first `n` matrices of a batch fail on.
pub open spec fn mats_fail(
    rows: Seq<Vec<u64>>,
    mats: Seq<OpenedMatrix>,
    log_blowup: int,
    index: int,
    log_global: int,
    n: nat,
) -> Option<FriError>
    decreases n,
{
    if n == 0 {
        None
    } else {
        let m = mats[n - 1];
        match mats_fail(rows, mats, log_blowup, index, log_global, (n - 1) as nat) {
            Some(e) => Some(e),
            None => points_fail(
                rows[n - 1]@,
                m.points@,
                deep_point(index, log_global, log_height_of(m, log_blowup)),
                m.points@.len(),
            ),
        }
    }
}

/// The widths and heights of the matrices of a batch, the widths as the first point claims them.
pub open spec fn dims_z(mats: Seq<OpenedMatrix>, log_blowup: int) -> Seq<(usize, usize)> {
    Seq::new(
        mats.len(),
        |i: int|
            (
                mats[i].points@[0].1.len(),
                pow2(log_height_of(mats[i], log_blowup) as nat) as usize,
            ),
    )
}

/// The largest height of the first `n` matrices.
pub open spec fn highest(mats: Seq<OpenedMatrix>, log_blowup: int, n: nat) -> int
    decreases n,
{
    if n == 0 {
        0
    } else {
        let h = log_height_of(mats[n - 1], log_blowup);
        let before = highest(mats, log_blowup, (n - 1) as nat);
        if n == 1 || h > before {
            h
        } else {
            before
        }
    }
}

/// The index of a query in a batch: without the bits beyond its largest matrix; zero without one.
pub open spec fn batch_index(
    mats: Seq<OpenedMatrix>,
    log_blowup: int,
    index: int,
    log_global: int,
) -> int {
    if mats.len() == 0 {
        0
    } else {
        shr_z(index, (log_global - highest(mats, log_blowup, mats.len())) as nat)
    }
}

/// What a batch fails on.
pub open spec fn batch_fail(
    opening: BatchOpening,
    com: OpenedBatch,
    params: FriParams,
    index: int,
    log_global: int,
) -> Option<FriError> {
    let b = params.log_blowup as int;
    let mats = com.mats@;
    if opening.opened_values.len() != mats.len() {
        Some(FriError::OpenedCount)
    } else if exists|i: int| 0 <= i < mats.len() && (#[trigger] mats[i]).points.len() == 0 {
        Some(FriError::NoOpeningPoints)
    } else if !opening_accepts(
        params.cap_height as int,
        com.cap@,
        dims_z(mats, b),
        batch_index(mats, b, index, log_global),
        rows_z(opening.opened_values@),
        opening.path@,
    ) {
        Some(FriError::InputMerkle)
    } else {
        mats_fail(opening.opened_values@, mats, b, index, log_global, mats.len())
    }
}

/// What the first `n` batches fail on.
pub open spec fn batches_fail(
    proofs: Seq<BatchOpening>,
    coms: Seq<OpenedBatch>,
    params: FriParams,
    index: int,
    log_global: int,
    n: nat,
) -> Option<FriError>
    decreases n,
{
    if n == 0 {
        None
    } else {
        match batches_fail(proofs, coms, params, index, log_global, (n - 1) as nat) {
            Some(e) => Some(e),
            None => batch_fail(proofs[n - 1], coms[n - 1], params, index, log_global),
        }
    }
}

/// What the openings of a query fail on.
pub open spec fn input_fail(
    proofs: Seq<BatchOpening>,
    coms: Seq<OpenedBatch>,
    params: FriParams,
    index: int,
    log_global: int,
    alpha: (int, int),
) -> Option<FriError> {
    let b = params.log_blowup as int;
    if proofs.len() != coms.len() {
        Some(FriError::BatchCount)
    } else {
        match batches_fail(proofs, coms, params, index, log_global, coms.len()) {
            Some(e) => Some(e),
            None => if reached(coms, b, b, coms.len()) && opening_of(
                all_terms(proofs, coms, b, b, coms.len()),
                deep_point(index, log_global, b),
                alpha,
            ) != (0int, 0int) {
                Some(FriError::NonzeroBlowup)
            } else {
                None
            },
        }
    }
}

/// Every matrix fits under the largest height, and every commitment is a Merkle cap.
pub open spec fn coms_ok(coms: Seq<OpenedBatch>, log_blowup: int, log_global: int) -> bool {
    &&& forall|i: int| 0 <= i < coms.len() ==> is_pow2((#[trigger] coms[i]).cap.len() as int)
    &&& forall|i: int, j: int|
        #![trigger coms[i].mats@[j]]
        0 <= i < coms.len() && 0 <= j < coms[i].mats.len() ==> log_height_of(
            coms[i].mats@[j],
            log_blowup,
        ) <= log_global
}

/// The opening of one more term.
pub proof fn lemma_opening_push(terms: Seq<Term>, t: Term, x: int, alpha: (int, int))
    ensures
        ({
            let d = (t.pz@.0 - t.px, t.pz@.1);
            opening_of(terms.push(t), x, alpha) == ered(
                zadd(
                    opening_of(terms, x, alpha),
                    zmul(zmul(power_z(alpha, terms.len()), d), inv_at(t.z@, x)),
                ),
            )
        }),
{
    let more = terms.push(t);
    lemma_reduced_front(terms, more, x, alpha, terms.len());
}

proof fn lemma_reduced_front(a: Seq<Term>, b: Seq<Term>, x: int, alpha: (int, int), n: nat)
    requires
        n <= a.len(),
        n <= b.len(),
        forall|i: int| 0 <= i < n ==> #[trigger] a[i] == b[i],
    ensures
        reduced_z(term_zs(a), term_pzs(a), term_pxs(a), x, alpha, n) == reduced_z(
            term_zs(b),
            term_pzs(b),
            term_pxs(b),
            x,
            alpha,
            n,
        ),
    decreases n,
{
    if n > 0 {
        lemma_reduced_front(a, b, x, alpha, (n - 1) as nat);
        assert(a[n - 1] == b[n - 1]);
    }
}

/// What is kept of a height: the next power of the combination challenge, and the opening so far.
#[derive(Clone, Copy)]
struct Running {
    power: Challenge,
    opening: Challenge,
}

impl Running {
    spec fn of(self, terms: Seq<Term>, x: int, alpha: (int, int)) -> bool {
        &&& self.power@ == power_z(alpha, terms.len())
        &&& self.opening@ == opening_of(terms, x, alpha)
        &&& ecanonical(self.opening)
    }
}

/// Adds the terms of a point.
fn add_point(
    run: Running,
    row: &Vec<u64>,
    z: Challenge,
    ps: &Vec<Challenge>,
    x: u64,
    alpha: Challenge,
    Ghost(terms): Ghost<Seq<Term>>,
) -> (r: Running)
    requires
        row.len() == ps.len(),
        ered((z@.0 - x, z@.1)) != (0int, 0int),
        run.of(terms, x as int, alpha@),
    ensures
        r.of(terms + point_terms(row@, z, ps@), x as int, alpha@),
{
    let quotient: Challenge = inverse_at(z, x);
    let n: usize = ps.len();
    let mut r: Running = run;
    let ghost more = point_terms(row@, z, ps@);
    assert(terms + more.take(0) =~= terms);
    for k in 0..n
        invariant
            n == ps.len(),
            n == row.len(),
            more == point_terms(row@, z, ps@),
            quotient@ == inv_at(z@, x as int),
            r.of(terms + more.take(k as int), x as int, alpha@),
    {
        let diff: Challenge = esub(ps[k], crate::field::efrom(row[k]));
        let ghost sofar = terms + more.take(k as int);
        let ghost t = more[k as int];
        proof {
            assert(terms + more.take(k + 1) =~= sofar.push(t));
            lemma_opening_push(sofar, t, x as int, alpha@);
            let d = (t.pz@.0 - t.px, t.pz@.1);
            let w = power_z(alpha@, sofar.len());
            lemma_term(w, t.pz@, t.px as int, quotient@, r.opening@);
        }
        let scaled: Challenge = emul(emul(r.power, diff), quotient);
        r = Running { power: emul(r.power, alpha), opening: eadd(r.opening, scaled) };
    }
    assert(more.take(n as int) =~= more);
    r
}

/// A term computed step by step.
pub proof fn lemma_term(w: (int, int), pz: (int, int), px: int, q: (int, int), o: (int, int))
    ensures
        ({
            let d = (pz.0 - px, pz.1);
            let b = ered((px, 0int));
            ered(zadd(o, ered(zmul(ered(zmul(w, ered(zsub(pz, b)))), q)))) == ered(
                zadd(o, zmul(zmul(w, d), q)),
            )
        }),
{
    let d = (pz.0 - px, pz.1);
    let base = (px, 0int);
    let b = ered(base);
    lemma_ered(base);
    lemma_econg_sub(pz, pz, b, base);
    assert(zsub(pz, base) == d);
    let e = ered(zsub(pz, b));
    lemma_ered(zsub(pz, b));
    lemma_econg_mul(w, w, e, d);
    let m = ered(zmul(w, e));
    lemma_ered(zmul(w, e));
    lemma_econg_mul(m, zmul(w, d), q, q);
    lemma_ered(zmul(m, q));
    lemma_econg_add(o, o, ered(zmul(m, q)), zmul(zmul(w, d), q));
}

proof fn lemma_points_fail(
    row: Seq<u64>,
    points: Seq<(Challenge, Vec<Challenge>)>,
    x: int,
    k: nat,
    n: nat,
)
    requires
        k <= n,
        points_fail(row, points, x, k) is Some,
    ensures
        points_fail(row, points, x, n) == points_fail(row, points, x, k),
    decreases n - k,
{
    if k < n {
        lemma_points_fail(row, points, x, k, (n - 1) as nat);
    }
}

/// Adds the terms of a matrix.
fn add_matrix(
    run: Running,
    row: &Vec<u64>,
    m: &OpenedMatrix,
    x: u64,
    alpha: Challenge,
    Ghost(terms): Ghost<Seq<Term>>,
) -> (r: Result<Running, FriError>)
    requires
        run.of(terms, x as int, alpha@),
    ensures
        match r {
            Ok(v) => points_fail(row@, m.points@, x as int, m.points@.len()) is None && v.of(
                terms + mat_terms(row@, m.points@, m.points@.len()),
                x as int,
                alpha@,
            ),
            Err(e) => points_fail(row@, m.points@, x as int, m.points@.len()) == Some(e),
        },
{
    let n: usize = m.points.len();
    let mut r: Running = run;
    assert(terms + mat_terms(row@, m.points@, 0) =~= terms);
    for k in 0..n
        invariant
            n == m.points.len(),
            points_fail(row@, m.points@, x as int, k as nat) is None,
            r.of(terms + mat_terms(row@, m.points@, k as nat), x as int, alpha@),
    {
        let z: Challenge = m.points[k].0;
        let ps: &Vec<Challenge> = &m.points[k].1;
        if row.len() != ps.len() {
            proof {
                lemma_points_fail(row@, m.points@, x as int, (k + 1) as nat, n as nat);
            }
            return Err(FriError::PointCount);
        }
        let d: Challenge = esub(z, crate::field::efrom(x));
        proof {
            let base = (x as int, 0int);
            lemma_ered(base);
            lemma_econg_sub(z@, z@, ered(base), base);
            assert(zsub(z@, base) == (z@.0 - x, z@.1));
        }
        if d.c0 == 0 && d.c1 == 0 {
            proof {
                lemma_points_fail(row@, m.points@, x as int, (k + 1) as nat, n as nat);
            }
            return Err(FriError::PointMatchesQuery);
        }
        let ghost sofar = terms + mat_terms(row@, m.points@, k as nat);
        r = add_point(r, row, z, ps, x, alpha, Ghost(sofar));
        assert(terms + mat_terms(row@, m.points@, (k + 1) as nat) =~= sofar + point_terms(
            row@,
            z,
            ps@,
        ));
    }
    Ok(r)
}

/// The terms at height `h` of the first `ci` batches and `mi` matrices of the next one.
spec fn terms_so_far(
    proofs: Seq<BatchOpening>,
    coms: Seq<OpenedBatch>,
    b: int,
    h: int,
    ci: nat,
    mi: nat,
) -> Seq<Term> {
    all_terms(proofs, coms, b, h, ci) + batch_terms(
        proofs[ci as int].opened_values@,
        coms[ci as int].mats@,
        b,
        h,
        mi,
    )
}

spec fn reached_so_far(coms: Seq<OpenedBatch>, b: int, h: int, ci: nat, mi: nat) -> bool {
    reached(coms, b, h, ci) || mats_reach(coms[ci as int].mats@, b, h, mi)
}

/// What is kept of every height.
spec fn kept(
    acc: Seq<Option<Running>>,
    proofs: Seq<BatchOpening>,
    coms: Seq<OpenedBatch>,
    b: int,
    index: int,
    log_global: int,
    alpha: (int, int),
    ci: nat,
    mi: nat,
) -> bool {
    &&& acc.len() == log_global + 1
    &&& forall|h: int|
        #![trigger acc[h]]
        0 <= h <= log_global ==> {
            let terms = terms_so_far(proofs, coms, b, h, ci, mi);
            &&& acc[h] is Some <==> reached_so_far(coms, b, h, ci, mi)
            &&& acc[h] is None ==> terms.len() == 0
            &&& acc[h] is Some ==> acc[h]->0.of(terms, deep_point(index, log_global, h), alpha)
        }
}

proof fn lemma_mats_fail(
    rows: Seq<Vec<u64>>,
    mats: Seq<OpenedMatrix>,
    b: int,
    index: int,
    log_global: int,
    k: nat,
    n: nat,
)
    requires
        k <= n,
        mats_fail(rows, mats, b, index, log_global, k) is Some,
    ensures
        mats_fail(rows, mats, b, index, log_global, n) == mats_fail(
            rows,
            mats,
            b,
            index,
            log_global,
            k,
        ),
    decreases n - k,
{
    if k < n {
        lemma_mats_fail(rows, mats, b, index, log_global, k, (n - 1) as nat);
    }
}

/// One more matrix reaches its own height and no other.
proof fn lemma_one_more(
    proofs: Seq<BatchOpening>,
    coms: Seq<OpenedBatch>,
    b: int,
    h: int,
    ci: nat,
    mi: nat,
)
    requires
        mi < coms[ci as int].mats.len(),
    ensures
        ({
            let m = coms[ci as int].mats@[mi as int];
            let row = proofs[ci as int].opened_values@[mi as int]@;
            if log_height_of(m, b) == h {
                &&& reached_so_far(coms, b, h, ci, mi + 1)
                &&& terms_so_far(proofs, coms, b, h, ci, mi + 1) == terms_so_far(
                    proofs,
                    coms,
                    b,
                    h,
                    ci,
                    mi,
                ) + mat_terms(row, m.points@, m.points@.len())
            } else {
                &&& reached_so_far(coms, b, h, ci, mi + 1) == reached_so_far(coms, b, h, ci, mi)
                &&& terms_so_far(proofs, coms, b, h, ci, mi + 1) == terms_so_far(
                    proofs,
                    coms,
                    b,
                    h,
                    ci,
                    mi,
                )
            }
        }),
{
    let mats = coms[ci as int].mats@;
    let m = mats[mi as int];
    let row = proofs[ci as int].opened_values@[mi as int]@;
    let more = terms_so_far(proofs, coms, b, h, ci, mi + 1);
    let now = terms_so_far(proofs, coms, b, h, ci, mi);
    if log_height_of(m, b) == h {
        assert(log_height_of(mats[mi as int], b) == h);
        assert(more =~= now + mat_terms(row, m.points@, m.points@.len()));
    } else {
        assert(more =~= now);
        if mats_reach(mats, b, h, mi + 1) {
            let i = choose|i: int| 0 <= i < mi + 1 && log_height_of(#[trigger] mats[i], b) == h;
            assert(0 <= i < mi);
        }
        if mats_reach(mats, b, h, mi) {
            let i = choose|i: int| 0 <= i < mi && log_height_of(#[trigger] mats[i], b) == h;
            assert(0 <= i < mi + 1);
        }
    }
}

/// The widths and heights of the matrices of a batch, and the largest height; `None` where a matrix
/// has no opening point.
fn batch_dims(mats: &Vec<OpenedMatrix>, log_blowup: usize, log_global: usize) -> (r: Option<
    (Vec<(usize, usize)>, usize),
>)
    requires
        log_global <= 32,
        2 * pow2(log_global as nat) <= usize::MAX,
        forall|j: int|
            0 <= j < mats.len() ==> log_height_of(#[trigger] mats@[j], log_blowup as int)
                <= log_global,
    ensures
        match r {
            Some((dims, top)) => {
                &&& forall|i: int| 0 <= i < mats.len() ==> (#[trigger] mats@[i]).points.len() > 0
                &&& dims@ == dims_z(mats@, log_blowup as int)
                &&& forall|i: int| 0 <= i < dims.len() ==> (#[trigger] dims@[i]).1 <= usize::MAX / 2
                &&& top == highest(mats@, log_blowup as int, mats@.len())
                &&& top <= log_global
            },
            None => exists|i: int| 0 <= i < mats.len() && (#[trigger] mats@[i]).points.len() == 0,
        },
{
    let n: usize = mats.len();
    let mut dims: Vec<(usize, usize)> = Vec::new();
    let mut top: usize = 0;
    for i in 0..n
        invariant
            n == mats.len(),
            log_global <= 32,
            2 * pow2(log_global as nat) <= usize::MAX,
            forall|j: int|
                0 <= j < mats.len() ==> log_height_of(#[trigger] mats@[j], log_blowup as int)
                    <= log_global,
            forall|j: int| 0 <= j < i ==> (#[trigger] mats@[j]).points.len() > 0,
            dims.len() == i,
            forall|j: int|
                0 <= j < i ==> #[trigger] dims@[j] == dims_z(mats@, log_blowup as int)[j] && dims@[j].1
                    <= usize::MAX / 2,
            top == highest(mats@, log_blowup as int, i as nat),
            top <= log_global,
    {
        if mats[i].points.len() == 0 {
            assert(mats@[i as int].points.len() == 0);
            return None;
        }
        assert(log_height_of(mats@[i as int], log_blowup as int) <= log_global);
        let h: usize = mats[i].log_size + log_blowup;
        proof {
            if h < log_global {
                lemma_pow2_strictly_increases(h as nat, log_global as nat);
            }
        }
        dims.push((mats[i].points[0].1.len(), two_to(h)));
        if i == 0 || h > top {
            top = h;
        }
    }
    assert(dims@ =~= dims_z(mats@, log_blowup as int));
    Some((dims, top))
}

/// The openings of the next batch.
fn add_batch(
    acc: &mut Vec<Option<Running>>,
    proofs: &[BatchOpening],
    coms: &Vec<OpenedBatch>,
    ci: usize,
    params: &FriParams,
    index: usize,
    log_global: usize,
    alpha: Challenge,
) -> (r: Result<(), FriError>)
    requires
        ci < coms.len(),
        proofs@.len() == coms.len(),
        log_global <= 32,
        2 * pow2(log_global as nat) <= usize::MAX,
        coms_ok(coms@, params.log_blowup as int, log_global as int),
        kept(
            old(acc)@,
            proofs@,
            coms@,
            params.log_blowup as int,
            index as int,
            log_global as int,
            alpha@,
            ci as nat,
            0,
        ),
    ensures
        match r {
            Ok(()) => batch_fail(
                proofs@[ci as int],
                coms@[ci as int],
                *params,
                index as int,
                log_global as int,
            ) is None && kept(
                final(acc)@,
                proofs@,
                coms@,
                params.log_blowup as int,
                index as int,
                log_global as int,
                alpha@,
                ci as nat,
                coms@[ci as int].mats@.len(),
            ),
            Err(e) => batch_fail(
                proofs@[ci as int],
                coms@[ci as int],
                *params,
                index as int,
                log_global as int,
            ) == Some(e),
        },
{
    let com: &OpenedBatch = &coms[ci];
    let opening: &BatchOpening = &proofs[ci];
    let b: usize = params.log_blowup;
    let n: usize = com.mats.len();
    if opening.opened_values.len() != n {
        return Err(FriError::OpenedCount);
    }
    proof {
        assert forall|j: int| 0 <= j < com.mats.len() implies log_height_of(
            #[trigger] com.mats@[j],
            b as int,
        ) <= log_global by {
            assert(coms@[ci as int].mats@[j] == com.mats@[j]);
        }
    }
    let (dims, top) = match batch_dims(&com.mats, b, log_global) {
        None => {
            return Err(FriError::NoOpeningPoints);
        },
        Some(d) => d,
    };
    let at: usize = if n == 0 {
        0
    } else {
        shift_index(index, log_global - top)
    };
    if !mmcs_verify_batch(
        params.cap_height,
        &com.cap,
        &dims,
        at,
        &opening.opened_values,
        &opening.path,
    ) {
        return Err(FriError::InputMerkle);
    }
    let ghost rows = opening.opened_values@;
    let ghost mats = com.mats@;
    for mi in 0..n
        invariant
            com == &coms@[ci as int],
            opening == &proofs@[ci as int],
            rows == opening.opened_values@,
            mats == com.mats@,
            n == mats.len(),
            n == rows.len(),
            b == params.log_blowup,
            log_global <= 32,
            forall|j: int|
                0 <= j < com.mats.len() ==> log_height_of(#[trigger] com.mats@[j], b as int)
                    <= log_global,
            batch_fail(*opening, *com, *params, index as int, log_global as int) == mats_fail(
                rows,
                mats,
                b as int,
                index as int,
                log_global as int,
                n as nat,
            ),
            mats_fail(rows, mats, b as int, index as int, log_global as int, mi as nat) is None,
            kept(
                acc@,
                proofs@,
                coms@,
                b as int,
                index as int,
                log_global as int,
                alpha@,
                ci as nat,
                mi as nat,
            ),
    {
        let m: &OpenedMatrix = &com.mats[mi];
        assert(log_height_of(com.mats@[mi as int], b as int) <= log_global);
        let h: usize = m.log_size + b;
        let g: u64 = subgroup_point(shift_index(index, log_global - h), h);
        let x: u64 = fmul(GENERATOR, g);
        assert(x == deep_point(index as int, log_global as int, h as int));
        let ghost terms = terms_so_far(proofs@, coms@, b as int, h as int, ci as nat, mi as nat);
        let run: Running = match acc[h] {
            Some(v) => v,
            None => Running { power: eone(), opening: ezero() },
        };
        assert(run.of(terms, x as int, alpha@));
        let ghost before = acc@;
        match add_matrix(run, &opening.opened_values[mi], m, x, alpha, Ghost(terms)) {
            Err(e) => {
                proof {
                    lemma_mats_fail(
                        rows,
                        mats,
                        b as int,
                        index as int,
                        log_global as int,
                        (mi + 1) as nat,
                        n as nat,
                    );
                }
                return Err(e);
            },
            Ok(v) => {
                acc.set(h, Some(v));
            },
        }
        proof {
            assert forall|k: int| 0 <= k <= log_global implies ({
                let terms = terms_so_far(proofs@, coms@, b as int, k, ci as nat, (mi + 1) as nat);
                let cell = #[trigger] acc@[k];
                &&& cell is Some <==> reached_so_far(coms@, b as int, k, ci as nat, (mi + 1) as nat)
                &&& cell is None ==> terms.len() == 0
                &&& cell is Some ==> cell->0.of(
                    terms,
                    deep_point(index as int, log_global as int, k),
                    alpha@,
                )
            }) by {
                lemma_one_more(proofs@, coms@, b as int, k, ci as nat, mi as nat);
                assert(before[k] is Some <==> reached_so_far(coms@, b as int, k, ci as nat, mi as nat));
            }
        }
    }
    Ok(())
}

proof fn lemma_batches_fail(
    proofs: Seq<BatchOpening>,
    coms: Seq<OpenedBatch>,
    params: FriParams,
    index: int,
    log_global: int,
    k: nat,
    n: nat,
)
    requires
        k <= n,
        batches_fail(proofs, coms, params, index, log_global, k) is Some,
    ensures
        batches_fail(proofs, coms, params, index, log_global, n) == batches_fail(
            proofs,
            coms,
            params,
            index,
            log_global,
            k,
        ),
    decreases n - k,
{
    if k < n {
        lemma_batches_fail(proofs, coms, params, index, log_global, k, (n - 1) as nat);
    }
}

/// A batch whose matrices are all in is behind the openings.
proof fn lemma_batch_done(
    acc: Seq<Option<Running>>,
    proofs: Seq<BatchOpening>,
    coms: Seq<OpenedBatch>,
    b: int,
    index: int,
    log_global: int,
    alpha: (int, int),
    ci: nat,
)
    requires
        ci < coms.len(),
        kept(acc, proofs, coms, b, index, log_global, alpha, ci, coms[ci as int].mats@.len()),
    ensures
        kept(acc, proofs, coms, b, index, log_global, alpha, ci + 1, 0),
{
    let mats = coms[ci as int].mats@;
    let n = mats.len();
    assert forall|h: int| 0 <= h <= log_global implies ({
        let terms = terms_so_far(proofs, coms, b, h, ci + 1, 0);
        let cell = #[trigger] acc[h];
        &&& cell is Some <==> reached_so_far(coms, b, h, ci + 1, 0)
        &&& cell is None ==> terms.len() == 0
        &&& cell is Some ==> cell->0.of(terms, deep_point(index, log_global, h), alpha)
    }) by {
        assert(terms_so_far(proofs, coms, b, h, ci + 1, 0) =~= terms_so_far(
            proofs,
            coms,
            b,
            h,
            ci,
            n,
        ));
        assert(acc[h] is Some <==> reached_so_far(coms, b, h, ci, n));
        if reached(coms, b, h, ci) {
            let i = choose|i: int|
                0 <= i < ci && #[trigger] mats_reach(coms[i].mats@, b, h, coms[i].mats@.len());
            assert(0 <= i < ci + 1 && mats_reach(coms[i].mats@, b, h, coms[i].mats@.len()));
        }
        if mats_reach(mats, b, h, n) {
            assert(mats_reach(coms[ci as int].mats@, b, h, coms[ci as int].mats@.len()));
        }
        if reached(coms, b, h, ci + 1) {
            let i = choose|i: int|
                0 <= i < ci + 1 && #[trigger] mats_reach(coms[i].mats@, b, h, coms[i].mats@.len());
            if i < ci {
                assert(reached(coms, b, h, ci));
            }
        }
    }
}

/// Checks the opened rows of a query against the commitments and combines them: for every height that
/// a matrix has, from the largest down, the sum of the terms `alpha^k (pz - px) / (z - x)`.
pub fn open_input(
    params: &FriParams,
    log_global_max_height: usize,
    index: usize,
    input_proof: &[BatchOpening],
    alpha: Challenge,
    coms: &Vec<OpenedBatch>,
) -> (r: Result<Vec<(usize, Challenge)>, FriError>)
    requires
        log_global_max_height <= 32,
        2 * pow2(log_global_max_height as nat) <= usize::MAX,
        coms_ok(coms@, params.log_blowup as int, log_global_max_height as int),
    ensures
        ({
            let fail = input_fail(
                input_proof@,
                coms@,
                *params,
                index as int,
                log_global_max_height as int,
                alpha@,
            );
            match r {
                Ok(ros) => fail is None && openings_z(ros@) == listed(
                    input_proof@,
                    coms@,
                    params.log_blowup as int,
                    index as int,
                    log_global_max_height as int,
                    alpha@,
                    (log_global_max_height + 1) as nat,
                ),
                Err(e) => fail == Some(e),
            }
        }),
{
    let n: usize = coms.len();
    if input_proof.len() != n {
        return Err(FriError::BatchCount);
    }
    let lg: usize = log_global_max_height;
    let b: usize = params.log_blowup;
    let ghost ps = input_proof@;
    let mut acc: Vec<Option<Running>> = Vec::new();
    for h in 0..lg + 1
        invariant
            lg <= 32,
            acc.len() == h,
            forall|k: int| 0 <= k < h ==> #[trigger] acc@[k] is None,
    {
        acc.push(None);
    }
    proof {
        assert forall|h: int| 0 <= h <= lg implies (#[trigger] acc@[h] is None && terms_so_far(
            ps,
            coms@,
            b as int,
            h,
            0,
            0,
        ).len() == 0 && !reached_so_far(coms@, b as int, h, 0, 0)) by {}
    }
    for ci in 0..n
        invariant
            n == coms.len(),
            ps == input_proof@,
            ps.len() == n,
            lg == log_global_max_height,
            b == params.log_blowup,
            lg <= 32,
            2 * pow2(lg as nat) <= usize::MAX,
            coms_ok(coms@, b as int, lg as int),
            batches_fail(ps, coms@, *params, index as int, lg as int, ci as nat) is None,
            kept(acc@, ps, coms@, b as int, index as int, lg as int, alpha@, ci as nat, 0),
    {
        match add_batch(&mut acc, input_proof, coms, ci, params, index, lg, alpha) {
            Err(e) => {
                proof {
                    lemma_batches_fail(
                        ps,
                        coms@,
                        *params,
                        index as int,
                        lg as int,
                        (ci + 1) as nat,
                        n as nat,
                    );
                }
                return Err(e);
            },
            Ok(()) => {
                proof {
                    lemma_batch_done(
                        acc@,
                        ps,
                        coms@,
                        b as int,
                        index as int,
                        lg as int,
                        alpha@,
                        ci as nat,
                    );
                }
            },
        }
    }
    proof {
        assert forall|h: int| 0 <= h <= lg implies (#[trigger] acc@[h] is Some <==> reached(
            coms@,
            b as int,
            h,
            n as nat,
        )) && (acc@[h] is Some ==> acc@[h]->0.opening@ == opening_of(
            all_terms(ps, coms@, b as int, h, n as nat),
            deep_point(index as int, lg as int, h),
            alpha@,
        )) by {
            assert(terms_so_far(ps, coms@, b as int, h, n as nat, 0) =~= all_terms(
                ps,
                coms@,
                b as int,
                h,
                n as nat,
            ));
        }
        if b > lg && reached(coms@, b as int, b as int, n as nat) {
            let i = choose|i: int|
                0 <= i < n && #[trigger] mats_reach(
                    coms@[i].mats@,
                    b as int,
                    b as int,
                    coms@[i].mats@.len(),
                );
            let j = choose|j: int|
                0 <= j < coms@[i].mats@.len() && log_height_of(#[trigger] coms@[i].mats@[j], b as int)
                    == b;
            assert(log_height_of(coms@[i].mats@[j], b as int) <= lg);
        }
    }
    if b <= lg {
        match acc[b] {
            Some(v) => {
                if v.opening.c0 != 0 || v.opening.c1 != 0 {
                    return Err(FriError::NonzeroBlowup);
                }
            },
            None => {},
        }
    }
    let mut ros: Vec<(usize, Challenge)> = Vec::new();
    assert(openings_z(ros@) =~= Seq::<(int, (int, int))>::empty());
    for k in 0..lg + 1
        invariant
            n == coms.len(),
            lg <= 32,
            acc.len() == lg + 1,
            forall|h: int|
                0 <= h <= lg ==> (#[trigger] acc@[h] is Some <==> reached(
                    coms@,
                    b as int,
                    h,
                    n as nat,
                )) && (acc@[h] is Some ==> acc@[h]->0.opening@ == opening_of(
                    all_terms(ps, coms@, b as int, h, n as nat),
                    deep_point(index as int, lg as int, h),
                    alpha@,
                )),
            openings_z(ros@) == listed(
                ps,
                coms@,
                b as int,
                index as int,
                lg as int,
                alpha@,
                k as nat,
            ),
    {
        let h: usize = lg - k;
        let ghost before = ros@;
        match acc[h] {
            Some(v) => {
                ros.push((h, v.opening));
                assert(openings_z(ros@) =~= openings_z(before).push((h as int, v.opening@)));
            },
            None => {},
        }
    }
    Ok(ros)
}

} // verus!
