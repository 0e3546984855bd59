//! What a query's openings hold for a trace: the terms of its reduced opening, the rounds of its fold,
//! and the Merkle paths of its rows and groups.
use crate::bits::{lemma_rev_bound, rev_z, reverse_bits_len, shift_index, shr_z};
use crate::challenger::views;
use crate::field::{
    cong, generators, ints, lemma_red_mul, lemma_red_red, lemma_red_small, red, two_adic_gen,
    two_adic_generator, Challenge, P,
};
use crate::fold_laws::law_pair_fold;
use crate::fri_input::{
    all_terms, batch_terms, log_height_of, mat_terms, point_terms, OpenedBatch, OpenedMatrix,
};
use crate::fri_query::{build_group, fold_run, group_z, CommitStep, Fold, FriParams};
use crate::merkle::{path_z, Digest};
use crate::mmcs::{hash_row, index_path, path_of, row_hash};
use crate::monolith::cells::{fold_next, fold_one, running, FoldRound, Term};
use crate::monolith::fused_trace::GroupOpening;
use crate::native_fri::{
    fold_group, fold_points, folded, fpow, log_z, pow_z, reverse_slice_index_bits,
};
use crate::plain_proof::{BatchOpening, CommitOpening};
use crate::prime::law_no_zero_divisors;
use vstd::arithmetic::power2::pow2;
use vstd::prelude::*;

verus! {

/// A power of a nonzero element is not zero.
pub proof fn lemma_pow_nonzero(x: int, n: nat)
    requires
        red(x) != 0,
    ensures
        0 < pow_z(x, n) < P,
        red(pow_z(x, n)) != 0,
    decreases n,
{
    lemma_red_small(1);
    if n > 0 {
        let m = (n - 1) as nat;
        lemma_pow_nonzero(x, m);
        if red(x * pow_z(x, m)) == 0 {
            law_no_zero_divisors(x, pow_z(x, m));
        }
        lemma_red_red(x * pow_z(x, m));
        crate::field::lemma_red_bound(x * pow_z(x, m));
    }
}

/// The fold point of round `r` of a query: that of the index without the bits that are folded, in the
/// subgroup of the round.
pub open spec fn fold_point(index: int, log_global: int, r: int) -> int {
    pow_z(
        two_adic_gen(log_global - r),
        rev_z(shr_z(index, (r + 1) as nat), (log_global - r - 1) as nat) as nat,
    )
}

/// The rounds of an arity-2 fold.
pub open spec fn rounds_of(
    rounds: Seq<FoldRound>,
    openings: Seq<CommitOpening>,
    betas: Seq<Challenge>,
    index: int,
    log_global: int,
) -> bool {
    &&& rounds.len() == openings.len()
    &&& forall|r: int|
        #![trigger rounds[r]]
        0 <= r < rounds.len() ==> {
            &&& rounds[r].sib == openings[r].sibling_values@[0]
            &&& rounds[r].beta == betas[r]
            &&& rounds[r].bit == (shr_z(index, r as nat) % 2 == 1)
            &&& rounds[r].s == fold_point(index, log_global, r)
        }
}

/// Every round folds a pair.
pub open spec fn binary(openings: Seq<CommitOpening>) -> bool {
    forall|r: int|
        #![trigger openings[r]]
        0 <= r < openings.len() ==> openings[r].log_arity == 1 && openings[r].sibling_values.len()
            == 1
}

/// The rounds of the fold of a query whose rounds fold pairs, and the evaluation behind them.
pub fn query_fold_data(
    openings: &Vec<CommitOpening>,
    betas: &Vec<Challenge>,
    index: usize,
    log_global: usize,
    ro: Challenge,
) -> (r: (Vec<FoldRound>, Challenge))
    requires
        binary(openings@),
        openings.len() <= betas.len(),
        openings.len() <= log_global <= 32,
    ensures
        rounds_of(r.0@, openings@, betas@, index as int, log_global as int),
        r.1@ == running(ro@, r.0@, openings@.len()),
        forall|i: int| 0 <= i < r.0.len() ==> red(2 * (#[trigger] r.0@[i]).s) != 0,
{
    let n: usize = openings.len();
    let mut rounds: Vec<FoldRound> = Vec::new();
    let mut e: Challenge = ro;
    let mut at: usize = index;
    for i in 0..n
        invariant
            n == openings.len(),
            n <= betas.len(),
            n <= log_global <= 32,
            binary(openings@),
            rounds.len() == i,
            at == shr_z(index as int, i as nat),
            e@ == running(ro@, rounds@, i as nat),
            forall|r: int|
                #![trigger rounds@[r]]
                0 <= r < i ==> {
                    &&& rounds@[r].sib == openings@[r].sibling_values@[0]
                    &&& rounds@[r].beta == betas@[r]
                    &&& rounds@[r].bit == (shr_z(index as int, r as nat) % 2 == 1)
                    &&& rounds@[r].s == fold_point(index as int, log_global as int, r)
                    &&& red(2 * rounds@[r].s) != 0
                },
    {
        assert(openings@[i as int].sibling_values.len() == 1);
        let bit: bool = at % 2 == 1;
        at = at / 2;
        let low: usize = log_global - i - 1;
        proof {
            lemma_rev_bound(at as int, low as nat);
        }
        let g: u64 = two_adic_generator(log_global - i);
        let s: u64 = fpow(g, reverse_bits_len(at, low) as u64);
        proof {
            lemma_red_small(g as int);
            lemma_pow_nonzero(g as int, rev_z(at as int, low as nat) as nat);
            lemma_red_small(2);
            if red(2 * s) == 0 {
                law_no_zero_divisors(2, s as int);
            }
        }
        let rd: FoldRound = FoldRound {
            sib: openings[i].sibling_values[0],
            beta: betas[i],
            bit,
            s,
        };
        let ghost before = rounds@;
        e = fold_next(e, &rd);
        rounds.push(rd);
        proof {
            lemma_running_front(ro@, before, rounds@, i as nat);
        }
    }
    (rounds, e)
}

proof fn lemma_running_front(ro: (int, int), a: Seq<FoldRound>, b: Seq<FoldRound>, k: nat)
    requires
        k <= a.len(),
        k <= b.len(),
        forall|i: int| 0 <= i < k ==> #[trigger] a[i] == b[i],
    ensures
        running(ro, a, k) == running(ro, b, k),
    decreases k,
{
    if k > 0 {
        lemma_running_front(ro, a, b, (k - 1) as nat);
        assert(a[k - 1] == b[k - 1]);
    }
}

/// The steps are those of the openings and the challenges.
pub open spec fn steps_of(
    steps: Seq<CommitStep>,
    openings: Seq<CommitOpening>,
    betas: Seq<Challenge>,
) -> bool {
    &&& steps.len() == openings.len()
    &&& forall|r: int|
        #![trigger steps[r]]
        0 <= r < steps.len() ==> *steps[r].opening == openings[r] && steps[r].beta == betas[r]
}

/// The points of a pair.
proof fn lemma_pair_points(index: int, low: nat)
    requires
        generators(),
        low < 32,
    ensures
        ({
            let xs = fold_points(index, low, 1);
            let s = pow_z(two_adic_gen((low + 1) as int), rev_z(index, low) as nat);
            &&& xs == seq![s, xs[1]]
            &&& cong(xs[1], -s)
            &&& red(s) != 0
        }),
{
    vstd::arithmetic::power2::lemma2_to64();
    let g = two_adic_gen((low + 1) as int);
    let s = pow_z(g, rev_z(index, low) as nat);
    let xs = fold_points(index, low, 1);
    lemma_red_small(g);
    lemma_pow_nonzero(g, rev_z(index, low) as nat);
    lemma_red_small(s);
    let m = P - 1;
    reveal_with_fuel(rev_z, 2);
    reveal_with_fuel(shr_z, 2);
    reveal_with_fuel(pow_z, 2);
    assert(rev_z(0, 1) == 0);
    assert(rev_z(1, 1) == 1);
    lemma_red_small(m);
    assert(m * 1 == m);
    assert(pow_z(m, 1) == m);
    assert(xs[0] == red(s * 1));
    assert(xs[1] == red(s * m));
    lemma_red_red(s * m);
    assert(s * m == s * P - s) by (nonlinear_arith)
        requires
            m == P - 1,
    ;
    crate::field::lemma_red_mul(s, P as int);
    assert(red(P as int) == 0);
    assert(s * 0 == 0);
    lemma_red_small(0);
    crate::field::lemma_cong_sub(s * P, 0, s, s);
    assert(xs =~= seq![s, xs[1]]);
}

/// The fold of a query along rounds that fold pairs is the chain of arity-2 fold steps: as long as no
/// round fails, the running evaluation is that of the chain, the index has lost one bit a round, and
/// so has the height.
pub proof fn law_query_folds(
    index: int,
    params: FriParams,
    steps: Seq<CommitStep>,
    ro: (int, int),
    openings: Seq<CommitOpening>,
    betas: Seq<Challenge>,
    rounds: Seq<FoldRound>,
    log_global: int,
    n: nat,
)
    requires
        generators(),
        0 <= index,
        n <= openings.len() <= log_global <= 32,
        binary(openings),
        steps_of(steps, openings, betas),
        rounds_of(rounds, openings, betas, index, log_global),
        fold_run(
            Fold { index, eval: ro, log_height: log_global, taken: 1, fail: None },
            params,
            steps,
            seq![(log_global, ro)],
            n,
        ).fail is None,
    ensures
        fold_run(
            Fold { index, eval: ro, log_height: log_global, taken: 1, fail: None },
            params,
            steps,
            seq![(log_global, ro)],
            n,
        ) == (Fold {
            index: shr_z(index, n),
            eval: running(ro, rounds, n),
            log_height: log_global - n,
            taken: 1,
            fail: None,
        }),
    decreases n,
{
    let start = Fold { index, eval: ro, log_height: log_global, taken: 1, fail: None };
    let ros = seq![(log_global, ro)];
    if n > 0 {
        let k = (n - 1) as nat;
        let before = fold_run(start, params, steps, ros, k);
        assert(before.fail is None);
        law_query_folds(index, params, steps, ro, openings, betas, rounds, log_global, k);
        let step = steps[k as int];
        let low = (log_global - n) as nat;
        let at = shr_z(index, n);
        let e = before.eval;
        let rd = rounds[k as int];
        vstd::arithmetic::power2::lemma2_to64();
        assert(openings[k as int].log_arity == 1);
        reveal_with_fuel(shr_z, 2);
        let slot = before.index % 2;
        let sib = views(step.opening.sibling_values@);
        let group = group_z(e, sib, slot);
        assert(sib =~= seq![rd.sib@]);
        assert(slot == 0 || slot == 1);
        let (e0, e1) = if rd.bit {
            (rd.sib@, e)
        } else {
            (e, rd.sib@)
        };
        assert(group =~= seq![e0, e1]);
        lemma_pair_points(at, low);
        let xs = fold_points(at, low, 1);
        law_pair_fold(e0, e1, rd.beta@, rd.s as int, xs[1]);
        assert(rd.s == xs[0]);
        assert(shr_z(before.index, 1) == at);
        assert(folded(at, low, 1, step.beta@, group) == fold_one(e, rd));
    }
}

/// The terms of the first `n` batches, whatever their heights.
pub open spec fn terms_flat(proofs: Seq<BatchOpening>, coms: Seq<OpenedBatch>, n: nat) -> Seq<Term>
    decreases n,
{
    if n == 0 {
        seq![]
    } else {
        terms_flat(proofs, coms, (n - 1) as nat) + mats_flat(
            proofs[n - 1].opened_values@,
            coms[n - 1].mats@,
            coms[n - 1].mats@.len(),
        )
    }
}

/// The terms of the first `n` matrices of a batch.
pub open spec fn mats_flat(rows: Seq<Vec<u64>>, mats: Seq<OpenedMatrix>, n: nat) -> Seq<Term>
    decreases n,
{
    if n == 0 {
        seq![]
    } else {
        let m = mats[n - 1];
        mats_flat(rows, mats, (n - 1) as nat) + mat_terms(rows[n - 1]@, m.points@, m.points@.len())
    }
}

/// The rows are there and long enough for the claimed values.
pub open spec fn rows_fit(proofs: Seq<BatchOpening>, coms: Seq<OpenedBatch>) -> bool {
    &&& proofs.len() == coms.len()
    &&& forall|i: int|
        #![trigger proofs[i]]
        0 <= i < proofs.len() ==> proofs[i].opened_values.len() == coms[i].mats.len()
    &&& forall|i: int, j: int, k: int|
        #![trigger coms[i].mats@[j].points@[k]]
        0 <= i < coms.len() && 0 <= j < coms[i].mats.len() && 0 <= k
            < coms[i].mats@[j].points.len() ==> coms[i].mats@[j].points@[k].1.len()
            == proofs[i].opened_values@[j].len()
}

/// The length of two sequences side by side: that of the shorter.
pub open spec fn zip_len(a: nat, b: nat) -> nat {
    if a <= b {
        a
    } else {
        b
    }
}

/// The terms of one point: the row and the claimed values side by side.
pub open spec fn zip_point(row: Seq<u64>, z: Challenge, ps: Seq<Challenge>) -> Seq<Term> {
    Seq::new(zip_len(row.len(), ps.len()), |k: int| Term { z, pz: ps[k], px: row[k] })
}

/// The terms of the first `n` points of a matrix.
pub open spec fn zip_points(row: Seq<u64>, points: Seq<(Challenge, Vec<Challenge>)>, n: nat) -> Seq<
    Term,
>
    decreases n,
{
    if n == 0 {
        seq![]
    } else {
        let (z, ps) = points[n - 1];
        zip_points(row, points, (n - 1) as nat) + zip_point(row, z, ps@)
    }
}

/// The terms of the first `n` matrices of a batch.
pub open spec fn zip_mats(rows: Seq<Vec<u64>>, mats: Seq<OpenedMatrix>, n: nat) -> Seq<Term>
    decreases n,
{
    if n == 0 {
        seq![]
    } else {
        let points = mats[n - 1].points@;
        zip_mats(rows, mats, (n - 1) as nat) + zip_points(rows[n - 1]@, points, points.len())
    }
}

/// The terms of the first `n` batches.
pub open spec fn zip_batches(proofs: Seq<BatchOpening>, coms: Seq<OpenedBatch>, n: nat) -> Seq<Term>
    decreases n,
{
    if n == 0 {
        seq![]
    } else {
        let (rows, mats) = (proofs[n - 1].opened_values@, coms[n - 1].mats@);
        zip_batches(proofs, coms, (n - 1) as nat) + zip_mats(
            rows,
            mats,
            zip_len(rows.len(), mats.len()),
        )
    }
}

/// The terms of a query: its rows and the claimed values side by side, batch by batch, matrix by matrix
/// and point by point, each as far as both go.
pub open spec fn query_terms_z(proofs: Seq<BatchOpening>, coms: Seq<OpenedBatch>) -> Seq<Term> {
    zip_batches(proofs, coms, zip_len(proofs.len(), coms.len()))
}

proof fn lemma_zip_points(row: Seq<u64>, points: Seq<(Challenge, Vec<Challenge>)>, n: nat)
    requires
        n <= points.len(),
        forall|k: int| 0 <= k < points.len() ==> (#[trigger] points[k]).1.len() == row.len(),
    ensures
        zip_points(row, points, n) == mat_terms(row, points, n),
    decreases n,
{
    if n > 0 {
        lemma_zip_points(row, points, (n - 1) as nat);
        let (z, ps) = points[n - 1];
        assert(points[n - 1].1.len() == row.len());
        assert(zip_point(row, z, ps@) =~= point_terms(row, z, ps@));
    }
}

proof fn lemma_zip_mats(rows: Seq<Vec<u64>>, mats: Seq<OpenedMatrix>, n: nat)
    requires
        n <= mats.len(),
        forall|j: int, k: int|
            #![trigger mats[j].points@[k]]
            0 <= j < mats.len() && 0 <= k < mats[j].points.len() ==> mats[j].points@[k].1.len()
                == rows[j].len(),
    ensures
        zip_mats(rows, mats, n) == mats_flat(rows, mats, n),
    decreases n,
{
    if n > 0 {
        lemma_zip_mats(rows, mats, (n - 1) as nat);
        let points = mats[n - 1].points@;
        assert forall|k: int| 0 <= k < points.len() implies (#[trigger] points[k]).1.len()
            == rows[n - 1]@.len() by {
            assert(mats[n - 1].points@[k] == points[k]);
        }
        lemma_zip_points(rows[n - 1]@, points, points.len());
    }
}

proof fn lemma_zip_batches(proofs: Seq<BatchOpening>, coms: Seq<OpenedBatch>, n: nat)
    requires
        rows_fit(proofs, coms),
        n <= coms.len(),
    ensures
        zip_batches(proofs, coms, n) == terms_flat(proofs, coms, n),
    decreases n,
{
    if n > 0 {
        lemma_zip_batches(proofs, coms, (n - 1) as nat);
        let (rows, mats) = (proofs[n - 1].opened_values@, coms[n - 1].mats@);
        assert(proofs[n - 1].opened_values.len() == coms[n - 1].mats.len());
        assert forall|j: int, k: int|
            #![trigger mats[j].points@[k]]
            0 <= j < mats.len() && 0 <= k < mats[j].points.len() implies mats[j].points@[k].1.len()
            == rows[j].len() by {
            assert(coms[n - 1].mats@[j].points@[k] == mats[j].points@[k]);
        }
        lemma_zip_mats(rows, mats, mats.len());
    }
}

/// Where every row is as long as the values claimed of it, the terms of a query are those of all claimed
/// values.
pub proof fn law_rows_fit(proofs: Seq<BatchOpening>, coms: Seq<OpenedBatch>)
    requires
        rows_fit(proofs, coms),
    ensures
        query_terms_z(proofs, coms) == terms_flat(proofs, coms, coms.len()),
{
    lemma_zip_batches(proofs, coms, coms.len());
}

fn shorter(a: usize, b: usize) -> (r: usize)
    ensures
        r == zip_len(a as nat, b as nat),
{
    if a <= b {
        a
    } else {
        b
    }
}

/// Appends the terms of a matrix.
fn push_mat(r: &mut Vec<Term>, row: &Vec<u64>, points: &Vec<(Challenge, Vec<Challenge>)>)
    ensures
        final(r)@ == old(r)@ + zip_points(row@, points@, points@.len()),
{
    let n: usize = points.len();
    let ghost before = r@;
    assert(before + zip_points(row@, points@, 0) =~= before);
    for l in 0..n
        invariant
            n == points.len(),
            r@ == before + zip_points(row@, points@, l as nat),
    {
        let z: Challenge = points[l].0;
        let ps: &Vec<Challenge> = &points[l].1;
        let w: usize = shorter(row.len(), ps.len());
        let ghost front = r@;
        let ghost more = zip_point(row@, z, ps@);
        assert(front + more.take(0) =~= front);
        for t in 0..w
            invariant
                w == zip_len(row@.len(), ps@.len()),
                more == zip_point(row@, z, ps@),
                r@ == front + more.take(t as int),
        {
            r.push(Term { z, pz: ps[t], px: row[t] });
            assert(r@ =~= front + more.take(t + 1));
        }
        assert(more.take(w as int) =~= more);
        assert(r@ =~= before + zip_points(row@, points@, (l + 1) as nat));
    }
}

/// The terms of a query in the order in which they are combined.
pub fn query_terms(proofs: &Vec<BatchOpening>, coms: &Vec<OpenedBatch>) -> (r: Vec<Term>)
    ensures
        r@ == query_terms_z(proofs@, coms@),
{
    let n: usize = shorter(proofs.len(), coms.len());
    let mut r: Vec<Term> = Vec::new();
    for i in 0..n
        invariant
            n == zip_len(proofs@.len(), coms@.len()),
            r@ == zip_batches(proofs@, coms@, i as nat),
    {
        let ghost base = r@;
        let rows: &Vec<Vec<u64>> = &proofs[i].opened_values;
        let mats: &Vec<OpenedMatrix> = &coms[i].mats;
        let m: usize = shorter(rows.len(), mats.len());
        assert(base + zip_mats(rows@, mats@, 0) =~= base);
        for j in 0..m
            invariant
                m == zip_len(rows@.len(), mats@.len()),
                r@ == base + zip_mats(rows@, mats@, j as nat),
        {
            push_mat(&mut r, &rows[j], &mats[j].points);
            assert(r@ =~= base + zip_mats(rows@, mats@, (j + 1) as nat));
        }
    }
    r
}

proof fn lemma_batch_flat(
    rows: Seq<Vec<u64>>,
    mats: Seq<OpenedMatrix>,
    b: int,
    h: int,
    n: nat,
)
    requires
        n <= mats.len(),
        forall|j: int| 0 <= j < mats.len() ==> log_height_of(#[trigger] mats[j], b) == h,
    ensures
        batch_terms(rows, mats, b, h, n) == mats_flat(rows, mats, n),
    decreases n,
{
    if n > 0 {
        lemma_batch_flat(rows, mats, b, h, (n - 1) as nat);
        assert(log_height_of(mats[n - 1], b) == h);
    }
}

/// Where all matrices have one height, the terms of a query are those of that height.
pub proof fn law_one_height(
    proofs: Seq<BatchOpening>,
    coms: Seq<OpenedBatch>,
    b: int,
    h: int,
    n: nat,
)
    requires
        n <= coms.len(),
        forall|i: int, j: int|
            #![trigger coms[i].mats@[j]]
            0 <= i < coms.len() && 0 <= j < coms[i].mats.len() ==> log_height_of(
                coms[i].mats@[j],
                b,
            ) == h,
    ensures
        all_terms(proofs, coms, b, h, n) == terms_flat(proofs, coms, n),
    decreases n,
{
    if n > 0 {
        law_one_height(proofs, coms, b, h, (n - 1) as nat);
        let mats = coms[n - 1].mats@;
        assert forall|j: int| 0 <= j < mats.len() implies log_height_of(#[trigger] mats[j], b)
            == h by {
            assert(coms[n - 1].mats@[j] == mats[j]);
        }
        lemma_batch_flat(proofs[n - 1].opened_values@, mats, b, h, mats.len());
    }
}

/// The opening of a batch's first row: its hash, its path from an index, and the cap's entry.
pub fn query_input_merkle(opening: &BatchOpening, cap: &Vec<Digest>, index: usize) -> (r: (
    Digest,
    Vec<(Digest, bool)>,
    Digest,
))
    requires
        opening.opened_values.len() > 0,
        opening.opened_values@[0].len() + 3 <= usize::MAX,
        shr_z(index as int, opening.path@.len()) < cap.len(),
    ensures
        ints(r.0@) == row_hash(ints(opening.opened_values@[0]@)),
        path_z(r.1@) == index_path(opening.path@, index as int),
        r.2 == cap@[shr_z(index as int, opening.path@.len())],
{
    let leaf: Digest = hash_row(opening.opened_values[0].as_slice());
    let path: Vec<(Digest, bool)> = path_of(&opening.path, index);
    let at: usize = shift_index(index, opening.path.len());
    (leaf, path, cap[at])
}

/// The opening of the quotient's first row, which may be committed lower than the trace: the index
/// loses the bits that its shorter path does not cover. Also the width of the row.
pub fn query_quotient_merkle(
    opening: &BatchOpening,
    cap: &Vec<Digest>,
    index: usize,
    log_global: usize,
    cap_height: usize,
) -> (r: (Digest, Vec<(Digest, bool)>, Digest, usize))
    requires
        opening.opened_values.len() > 0,
        opening.opened_values@[0].len() + 3 <= usize::MAX,
        cap_height + opening.path.len() <= log_global,
        shr_z(
            shr_z(index as int, (log_global - cap_height - opening.path.len()) as nat),
            opening.path@.len(),
        ) < cap.len(),
    ensures
        ({
            let at = shr_z(index as int, (log_global - cap_height - opening.path.len()) as nat);
            &&& ints(r.0@) == row_hash(ints(opening.opened_values@[0]@))
            &&& path_z(r.1@) == index_path(opening.path@, at)
            &&& r.2 == cap@[shr_z(at, opening.path@.len())]
            &&& r.3 == opening.opened_values@[0].len()
        }),
{
    let reduction: usize = log_global - cap_height - opening.path.len();
    let at: usize = shift_index(index, reduction);
    let (leaf, path, entry) = query_input_merkle(opening, cap, at);
    (leaf, path, entry, opening.opened_values[0].len())
}

/// The pair of a round as four elements.
pub open spec fn pair_felts(e: (int, int), rd: FoldRound) -> Seq<int> {
    if rd.bit {
        seq![rd.sib@.0, rd.sib@.1, e.0, e.1]
    } else {
        seq![e.0, e.1, rd.sib@.0, rd.sib@.1]
    }
}

/// The fold groups of a query: in every round the pair of the running evaluation and its sibling, with
/// the path of the index without the folded bits.
pub open spec fn groups_are(
    groups: Seq<GroupOpening>,
    openings: Seq<CommitOpening>,
    rounds: Seq<FoldRound>,
    ro: (int, int),
    index: int,
) -> bool {
    &&& groups.len() == rounds.len()
    &&& forall|i: int|
        #![trigger groups[i]]
        0 <= i < groups.len() ==> {
            &&& ints(groups[i].group@) == pair_felts(running(ro, rounds, i as nat), rounds[i])
            &&& path_z(groups[i].path@) == index_path(
                openings[i].path@,
                shr_z(index, (i + 1) as nat),
            )
        }
}

/// The fold groups of a query.
pub fn query_groups(
    openings: &Vec<CommitOpening>,
    rounds: &Vec<FoldRound>,
    ro: Challenge,
    index: usize,
) -> (r: Vec<GroupOpening>)
    requires
        rounds.len() == openings.len(),
        forall|i: int| 0 <= i < rounds.len() ==> red(2 * (#[trigger] rounds@[i]).s) != 0,
    ensures
        groups_are(r@, openings@, rounds@, ro@, index as int),
{
    let n: usize = rounds.len();
    let mut out: Vec<GroupOpening> = Vec::new();
    let mut e: Challenge = ro;
    let mut at: usize = index;
    for i in 0..n
        invariant
            n == rounds.len(),
            n == openings.len(),
            forall|i: int| 0 <= i < rounds.len() ==> red(2 * (#[trigger] rounds@[i]).s) != 0,
            at == shr_z(index as int, i as nat),
            e@ == running(ro@, rounds@, i as nat),
            out.len() == i,
            forall|k: int|
                #![trigger out@[k]]
                0 <= k < i ==> {
                    &&& ints(out@[k].group@) == pair_felts(
                        running(ro@, rounds@, k as nat),
                        rounds@[k],
                    )
                    &&& path_z(out@[k].path@) == index_path(
                        openings@[k].path@,
                        shr_z(index as int, (k + 1) as nat),
                    )
                },
    {
        let rd: FoldRound = rounds[i];
        assert(red(2 * rounds@[i as int].s) != 0);
        let group: [u64; 4] = if rd.bit {
            [rd.sib.c0, rd.sib.c1, e.c0, e.c1]
        } else {
            [e.c0, e.c1, rd.sib.c0, rd.sib.c1]
        };
        assert(ints(group@) =~= pair_felts(e@, rd));
        at = at / 2;
        assert(at == shr_z(index as int, (i + 1) as nat));
        let path: Vec<(Digest, bool)> = path_of(&openings[i].path, at);
        out.push(GroupOpening { group, path });
        e = fold_next(e, &rd);
    }
    out
}

/// The hash of a fold group and the cap's entry that its path leads to.
#[derive(Debug)]
pub struct GroupProof {
    pub leaf: Digest,
    pub cap_entry: Digest,
}

/// The openings of the fold groups of a query, with their hashes and the caps' entries.
pub fn query_commit_merkle_all(
    openings: &Vec<CommitOpening>,
    commits: &Vec<Vec<Digest>>,
    rounds: &Vec<FoldRound>,
    ro: Challenge,
    index: usize,
) -> (r: (Vec<GroupOpening>, Vec<GroupProof>))
    requires
        rounds.len() == openings.len(),
        rounds.len() <= commits.len(),
        forall|i: int| 0 <= i < rounds.len() ==> red(2 * (#[trigger] rounds@[i]).s) != 0,
        forall|i: int|
            #![trigger openings@[i]]
            0 <= i < openings.len() ==> shr_z(
                shr_z(index as int, (i + 1) as nat),
                openings@[i].path@.len(),
            ) < commits@[i].len(),
    ensures
        groups_are(r.0@, openings@, rounds@, ro@, index as int),
        r.1.len() == rounds.len(),
        forall|i: int|
            #![trigger r.1@[i]]
            0 <= i < r.1.len() ==> {
                let at = shr_z(index as int, (i + 1) as nat);
                &&& ints(r.1@[i].leaf@) == row_hash(ints(r.0@[i].group@))
                &&& r.1@[i].cap_entry == commits@[i]@[shr_z(at, openings@[i].path@.len())]
            },
{
    let groups: Vec<GroupOpening> = query_groups(openings, rounds, ro, index);
    let n: usize = rounds.len();
    let mut out: Vec<GroupProof> = Vec::new();
    let mut at: usize = index;
    for i in 0..n
        invariant
            n == rounds.len(),
            n == openings.len(),
            n == groups.len(),
            n <= commits.len(),
            forall|i: int|
                #![trigger openings@[i]]
                0 <= i < openings.len() ==> shr_z(
                    shr_z(index as int, (i + 1) as nat),
                    openings@[i].path@.len(),
                ) < commits@[i].len(),
            at == shr_z(index as int, i as nat),
            out.len() == i,
            forall|k: int|
                #![trigger out@[k]]
                0 <= k < i ==> {
                    let at = shr_z(index as int, (k + 1) as nat);
                    &&& ints(out@[k].leaf@) == row_hash(ints(groups@[k].group@))
                    &&& out@[k].cap_entry == commits@[k]@[shr_z(at, openings@[k].path@.len())]
                },
    {
        let group: [u64; 4] = groups[i].group;
        let flat: Vec<u64> = vec![group[0], group[1], group[2], group[3]];
        assert(ints(flat@) =~= ints(groups@[i as int].group@));
        let leaf: Digest = hash_row(flat.as_slice());
        at = at / 2;
        assert(at == shr_z(index as int, (i + 1) as nat));
        assert(shr_z(at as int, openings@[i as int].path@.len()) < commits@[i as int].len());
        let entry: Digest = commits[i][shift_index(at, openings[i].path.len())];
        out.push(GroupProof { leaf, cap_entry: entry });
    }
    (groups, out)
}

/// The points of a fold group.
pub fn fold_coset(index: usize, log_height: usize, log_arity: usize) -> (r: Vec<u64>)
    requires
        log_height + log_arity <= 32,
        pow2(log_arity as nat) <= usize::MAX,
    ensures
        ints(r@) == fold_points(index as int, log_height as nat, log_arity as nat),
{
    proof {
        lemma_rev_bound(index as int, log_height as nat);
    }
    let start: u64 = fpow(
        two_adic_generator(log_height + log_arity),
        reverse_bits_len(index, log_height) as u64,
    );
    let g: u64 = two_adic_generator(log_arity);
    let n: usize = crate::monolith::general::two_to(log_arity);
    let mut xs: Vec<u64> = Vec::new();
    for i in 0..n
        invariant
            xs.len() == i,
            forall|j: int|
                0 <= j < i ==> #[trigger] xs@[j] == red(start * pow_z(g as int, j as nat)),
    {
        xs.push(crate::field::fmul(start, fpow(g, i as u64)));
    }
    proof {
        lemma_pow2_log(log_arity as nat);
    }
    reverse_slice_index_bits(&mut xs);
    proof {
        let want = fold_points(index as int, log_height as nat, log_arity as nat);
        assert forall|i: int| 0 <= i < want.len() implies ints(xs@)[i] == #[trigger] want[i] by {
            lemma_rev_bound(i, log_arity as nat);
        }
        assert(ints(xs@) =~= want);
    }
    xs
}

/// Where a fold of any arities stands behind `n` rounds: the index, the height and the evaluation.
pub open spec fn fold_at(
    openings: Seq<CommitOpening>,
    betas: Seq<Challenge>,
    index: int,
    log_global: int,
    ro: (int, int),
    n: nat,
) -> (int, int, (int, int))
    decreases n,
{
    if n == 0 {
        (index, log_global, ro)
    } else {
        let (at, height, e) = fold_at(openings, betas, index, log_global, ro, (n - 1) as nat);
        let la = openings[n - 1].log_arity as nat;
        let next = shr_z(at, la);
        let group = group_z(e, views(openings[n - 1].sibling_values@), at % (pow2(la) as int));
        (next, height - la, folded(next, (height - la) as nat, la, betas[n - 1]@, group))
    }
}

/// The siblings fill the groups, and the heights last for all rounds.
pub open spec fn foldable(openings: Seq<CommitOpening>, log_global: int) -> bool {
    &&& forall|r: int|
        #![trigger openings[r]]
        0 <= r < openings.len() ==> {
            &&& openings[r].sibling_values.len() + 1 == pow2(openings[r].log_arity as nat)
            &&& pow2(openings[r].log_arity as nat) <= usize::MAX
        }
    &&& sum_arities(openings, openings.len()) <= log_global <= 32
}

/// The arities of the first `n` rounds, summed.
pub open spec fn sum_arities(openings: Seq<CommitOpening>, n: nat) -> int
    decreases n,
{
    if n == 0 {
        0
    } else {
        sum_arities(openings, (n - 1) as nat) + openings[n - 1].log_arity
    }
}

proof fn lemma_fold_at(
    openings: Seq<CommitOpening>,
    betas: Seq<Challenge>,
    index: int,
    log_global: int,
    ro: (int, int),
    n: nat,
)
    ensures
        fold_at(openings, betas, index, log_global, ro, n).1 == log_global - sum_arities(
            openings,
            n,
        ),
    decreases n,
{
    if n > 0 {
        lemma_fold_at(openings, betas, index, log_global, ro, (n - 1) as nat);
    }
}

proof fn lemma_sum_arities(openings: Seq<CommitOpening>, k: nat, n: nat)
    requires
        k <= n,
    ensures
        0 <= sum_arities(openings, k) <= sum_arities(openings, n),
    decreases n,
{
    if k < n {
        lemma_sum_arities(openings, k, (n - 1) as nat);
    } else if n > 0 {
        lemma_sum_arities(openings, (k - 1) as nat, (n - 1) as nat);
    }
}

/// A round of a fold of any arity: the group, the challenge, the points of the group and the evaluation
/// behind it.
#[derive(Debug)]
pub struct FoldData {
    pub evals: Vec<Challenge>,
    pub beta: Challenge,
    pub xs: Vec<u64>,
    pub folded: Challenge,
}

/// A round is that of the fold behind `r` rounds.
pub open spec fn fold_data_is(
    d: FoldData,
    openings: Seq<CommitOpening>,
    betas: Seq<Challenge>,
    index: int,
    log_global: int,
    ro: (int, int),
    r: int,
) -> bool {
    let (at, height, e) = fold_at(openings, betas, index, log_global, ro, r as nat);
    let la = openings[r].log_arity as nat;
    &&& views(d.evals@) == group_z(
        e,
        views(openings[r].sibling_values@),
        at % (pow2(la) as int),
    )
    &&& d.beta == betas[r]
    &&& ints(d.xs@) == fold_points(shr_z(at, la), (height - la) as nat, la)
    &&& d.folded@ == fold_at(openings, betas, index, log_global, ro, (r + 1) as nat).2
}

/// The rounds of the fold of a query, whatever their arities.
pub fn general_fold_data(
    openings: &Vec<CommitOpening>,
    betas: &Vec<Challenge>,
    index: usize,
    log_global: usize,
    ro: Challenge,
) -> (r: Vec<FoldData>)
    requires
        foldable(openings@, log_global as int),
        openings.len() <= betas.len(),
    ensures
        r.len() == openings.len(),
        forall|i: int|
            0 <= i < r.len() ==> fold_data_is(
                #[trigger] r@[i],
                openings@,
                betas@,
                index as int,
                log_global as int,
                ro@,
                i,
            ),
{
    let n: usize = openings.len();
    let mut out: Vec<FoldData> = Vec::new();
    let mut at: usize = index;
    let mut height: usize = log_global;
    let mut e: Challenge = ro;
    for r in 0..n
        invariant
            n == openings.len(),
            n <= betas.len(),
            foldable(openings@, log_global as int),
            (at as int, height as int, e@) == fold_at(
                openings@,
                betas@,
                index as int,
                log_global as int,
                ro@,
                r as nat,
            ),
            out.len() == r,
            forall|i: int|
                0 <= i < r ==> fold_data_is(
                    #[trigger] out@[i],
                    openings@,
                    betas@,
                    index as int,
                    log_global as int,
                    ro@,
                    i,
                ),
    {
        let la: usize = openings[r].log_arity as usize;
        proof {
            lemma_fold_at(
                openings@,
                betas@,
                index as int,
                log_global as int,
                ro@,
                r as nat,
            );
            lemma_sum_arities(openings@, (r + 1) as nat, n as nat);
            lemma_sum_arities(openings@, r as nat, (r + 1) as nat);
            assert(openings@[r as int].sibling_values.len() + 1 == pow2(la as nat));
            vstd::arithmetic::power2::lemma_pow2_pos(la as nat);
        }
        let arity: usize = crate::monolith::general::two_to(la);
        let evals: Vec<Challenge> = build_group(e, &openings[r].sibling_values, at % arity);
        let low: usize = height - la;
        let next: usize = shift_index(at, la);
        let xs: Vec<u64> = fold_coset(next, low, la);
        let done: Challenge = fold_group(next, low, la, betas[r], &evals);
        out.push(FoldData { evals, beta: betas[r], xs, folded: done });
        at = next;
        height = low;
        e = done;
    }
    out
}

proof fn lemma_pow2_log(k: nat)
    ensures
        crate::cols::is_pow2(pow2(k) as int),
        log_z(pow2(k) as int) == k,
    decreases k,
{
    vstd::arithmetic::power2::lemma2_to64();
    if k > 0 {
        lemma_pow2_log((k - 1) as nat);
        vstd::arithmetic::power2::lemma_pow2_unfold(k);
        vstd::arithmetic::power2::lemma_pow2_pos((k - 1) as nat);
        assert(pow2(k) / 2 == pow2((k - 1) as nat));
    }
}

} // verus!
