//! The cells that a query puts into a trace: the bits of its index and the point they give, the
//! terms of its reduced opening, its fold chain, and the decomposition of the sampled element.
use crate::bits::{bit_at, bit_of};
use crate::field::{
    einv_z, einverse, emul, eone, ered, exp_power_of_2, fmul, fsub, ints, is_einverse,
    lemma_einv_cong, lemma_red_red, red, two_adic_gen, two_adic_generator, zmul, Challenge,
    GENERATOR, HALF, P,
};
use crate::fri_fold::{fold_value, inverse_of_double, native_fold};
use crate::gadgets::deep_factor;
use vstd::prelude::*;

verus! {

/// One term of a reduced opening: the opening point, the claimed value at it, the opened value at
/// the query point.
#[derive(Clone, Copy, Debug)]
pub struct Term {
    pub z: Challenge,
    pub pz: Challenge,
    pub px: u64,
}

/// One round of a fold chain: the sibling, the challenge, whether the running evaluation stands
/// second in its group, and the fold point.
#[derive(Clone, Copy, Debug)]
pub struct FoldRound {
    pub sib: Challenge,
    pub beta: Challenge,
    pub bit: bool,
    pub s: u64,
}

/// What a tile needs of a query.
#[derive(Debug)]
pub struct Query {
    pub index: u64,
    pub terms: Vec<Term>,
    pub alpha: Challenge,
    pub ro: Challenge,
    pub rounds: Vec<FoldRound>,
}

pub open spec fn zeros(n: int) -> Seq<int> {
    Seq::new(n as nat, |i: int| 0int)
}

pub fn zero_cells(n: usize) -> (r: Vec<u64>)
    ensures
        ints(r@) == zeros(n as int),
        r.len() == n,
{
    let mut r: Vec<u64> = Vec::new();
    for i in 0..n
        invariant
            r.len() == i,
            forall|j: int| 0 <= j < i ==> #[trigger] r@[j] == 0,
    {
        r.push(0);
    }
    assert(ints(r@) =~= zeros(n as int));
    r
}

/// Appends cells to a row.
pub fn extend(row: &mut Vec<u64>, more: &Vec<u64>)
    ensures
        ints(final(row)@) == ints(old(row)@) + ints(more@),
{
    let n: usize = more.len();
    let ghost before = row@;
    for i in 0..n
        invariant
            n == more.len(),
            row.len() == before.len() + i,
            forall|j: int| 0 <= j < before.len() ==> #[trigger] row@[j] == before[j],
            forall|j: int|
                #![trigger row@[j]]
                before.len() <= j < before.len() + i ==> row@[j] == more@[j - before.len()],
    {
        row.push(more[i]);
    }
    assert(ints(row@) =~= ints(before) + ints(more@));
}

/// Appends one cell to a row.
pub fn put(row: &mut Vec<u64>, x: u64)
    ensures
        ints(final(row)@) == ints(old(row)@).push(x as int),
{
    row.push(x);
    assert(ints(row@) =~= ints(old(row)@).push(x as int));
}

/// Appends the two coefficients of an extension element to a row.
pub fn put_ext(row: &mut Vec<u64>, x: Challenge)
    ensures
        ints(final(row)@) == ints(old(row)@) + seq![x@.0, x@.1],
{
    row.push(x.c0);
    row.push(x.c1);
    assert(ints(row@) =~= ints(old(row)@) + seq![x@.0, x@.1]);
}

/// The `n` lowest bits of `v` as cells.
pub open spec fn bit_cells(v: int, n: int) -> Seq<int> {
    Seq::new(n as nat, |i: int| bit_of(v, i))
}

pub fn bit_row(v: u64, n: usize) -> (r: Vec<u64>)
    requires
        n <= 64,
    ensures
        ints(r@) == bit_cells(v as int, n as int),
        r.len() == n,
{
    let mut r: Vec<u64> = Vec::new();
    for i in 0..n
        invariant
            n <= 64,
            r.len() == i,
            forall|j: int| 0 <= j < i ==> #[trigger] r@[j] == bit_of(v as int, j),
    {
        r.push(bit_at(v, i));
    }
    assert(ints(r@) =~= bit_cells(v as int, n as int));
    r
}

/// The product over the `k` lowest bits of `v` of the factors of the bits that are set.
pub open spec fn acc_z(v: int, n: int, k: nat) -> int
    decreases k,
{
    if k == 0 {
        1
    } else {
        red(
            acc_z(v, n, (k - 1) as nat) * (if bit_of(v, k - 1) == 1 {
                deep_factor(n, k - 1)
            } else {
                1
            }),
        )
    }
}

/// The running products over the bits of an index.
pub open spec fn acc_cells(v: int, n: int) -> Seq<int> {
    Seq::new(n as nat, |i: int| acc_z(v, n, (i + 1) as nat))
}

/// The evaluation point of index `v` over the coset of the subgroup of order `2^n`.
pub open spec fn point_z(v: int, n: int) -> int {
    red((GENERATOR as int) * acc_z(v, n, n as nat))
}

/// The running products over the bits of an index, and the evaluation point.
pub fn acc_row(v: u64, n: usize) -> (r: (Vec<u64>, u64))
    requires
        n <= 32,
    ensures
        ints(r.0@) == acc_cells(v as int, n as int),
        r.0.len() == n,
        r.1 == point_z(v as int, n as int),
        r.1 < P,
{
    let g: u64 = two_adic_generator(n);
    let mut r: Vec<u64> = Vec::new();
    let mut acc: u64 = 1;
    for i in 0..n
        invariant
            n <= 32,
            g == two_adic_gen(n as int),
            r.len() == i,
            acc == acc_z(v as int, n as int, i as nat),
            forall|j: int| 0 <= j < i ==> #[trigger] r@[j] == acc_z(v as int, n as int, (j + 1) as nat),
    {
        let c: u64 = if bit_at(v, i) == 1 {
            exp_power_of_2(g, n - 1 - i)
        } else {
            1
        };
        acc = fmul(acc, c);
        r.push(acc);
    }
    assert(ints(r@) =~= acc_cells(v as int, n as int));
    (r, fmul(GENERATOR, acc))
}

/// No opening point is the evaluation point `x`.
pub open spec fn off_points(terms: Seq<Term>, x: int) -> bool {
    forall|k: int|
        #![trigger terms[k]]
        0 <= k < terms.len() ==> ered((terms[k].z@.0 - x, terms[k].z@.1)) != (0int, 0int)
}

/// Whether no opening point is the evaluation point `x`.
pub fn off_points_at(terms: &Vec<Term>, x: u64) -> (r: bool)
    ensures
        r == off_points(terms@, x as int),
{
    let n: usize = terms.len();
    for k in 0..n
        invariant
            n == terms.len(),
            forall|j: int|
                #![trigger terms@[j]]
                0 <= j < k ==> ered((terms@[j].z@.0 - x, terms@[j].z@.1)) != (0int, 0int),
    {
        let t: Term = terms[k];
        let d0: u64 = fsub(t.z.c0, x);
        let d1: u64 = t.z.c1 % P;
        if d0 == 0 && d1 == 0 {
            assert(ered((terms@[k as int].z@.0 - x, terms@[k as int].z@.1)) == (0int, 0int));
            return false;
        }
    }
    true
}

/// Power `k` of the combination challenge.
pub open spec fn power_z(alpha: (int, int), k: nat) -> (int, int)
    decreases k,
{
    if k == 0 {
        (1, 0)
    } else {
        ered(zmul(power_z(alpha, (k - 1) as nat), alpha))
    }
}

/// The inverse of `z - x`.
pub open spec fn inv_at(z: (int, int), x: int) -> (int, int) {
    einv_z((z.0 - x, z.1))
}

/// The nine cells of term `k`.
pub open spec fn term_cells(t: Term, x: int, power: (int, int)) -> Seq<int> {
    let i = inv_at(t.z@, x);
    seq![t.z@.0, t.z@.1, t.pz@.0, t.pz@.1, t.px as int, i.0, i.1, power.0, power.1]
}

/// The cells of the first `n` terms.
pub open spec fn terms_cells(terms: Seq<Term>, x: int, alpha: (int, int), n: nat) -> Seq<int>
    decreases n,
{
    if n == 0 {
        Seq::empty()
    } else {
        let m = (n - 1) as nat;
        terms_cells(terms, x, alpha, m) + term_cells(terms[m as int], x, power_z(alpha, m))
    }
}

/// The inverse of `z - x`.
pub fn inverse_at(z: Challenge, x: u64) -> (r: Challenge)
    requires
        ered((z@.0 - x, z@.1)) != (0int, 0int),
    ensures
        r@ == inv_at(z@, x as int),
        is_einverse((z@.0 - x, z@.1), r@),
{
    let d: Challenge = Challenge { c0: fsub(z.c0, x), c1: z.c1 };
    proof {
        lemma_red_red(z@.0 - x);
    }
    let r: Challenge = einverse(d);
    proof {
        lemma_einv_cong(d@, (z@.0 - x, z@.1));
    }
    r
}

/// The cells of the terms of a reduced opening.
pub fn terms_row(terms: &Vec<Term>, x: u64, alpha: Challenge) -> (r: Vec<u64>)
    requires
        off_points(terms@, x as int),
    ensures
        ints(r@) == terms_cells(terms@, x as int, alpha@, terms@.len()),
{
    let n: usize = terms.len();
    let mut r: Vec<u64> = Vec::new();
    let mut power: Challenge = eone();
    assert(ints(r@) =~= Seq::<int>::empty());
    for k in 0..n
        invariant
            n == terms.len(),
            off_points(terms@, x as int),
            power@ == power_z(alpha@, k as nat),
            ints(r@) == terms_cells(terms@, x as int, alpha@, k as nat),
    {
        let t: Term = terms[k];
        let i: Challenge = inverse_at(t.z, x);
        let ghost before = ints(r@);
        put_ext(&mut r, t.z);
        put_ext(&mut r, t.pz);
        put(&mut r, t.px);
        put_ext(&mut r, i);
        put_ext(&mut r, power);
        assert(ints(r@) =~= before + term_cells(t, x as int, power@));
        power = emul(power, alpha);
    }
    r
}

/// The head of a tile behind the fold columns: index bits, products, combination challenge, terms.
pub open spec fn head_cells(q: Query, n: int) -> Seq<int> {
    let x = point_z(q.index as int, n);
    bit_cells(q.index as int, n) + acc_cells(q.index as int, n) + seq![q.alpha@.0, q.alpha@.1]
        + terms_cells(q.terms@, x, q.alpha@, q.terms@.len())
}

/// No opening point of a query is its evaluation point, and the fold points are not zero.
pub open spec fn query_ok(q: Query, n: int) -> bool {
    &&& off_points(q.terms@, point_z(q.index as int, n))
    &&& rounds_ok(q.rounds@)
}

pub fn head_row(q: &Query, n: usize) -> (r: Vec<u64>)
    requires
        n <= 32,
        off_points(q.terms@, point_z(q.index as int, n as int)),
    ensures
        ints(r@) == head_cells(*q, n as int),
{
    let mut r: Vec<u64> = bit_row(q.index, n);
    let (acc, x) = acc_row(q.index, n);
    extend(&mut r, &acc);
    put_ext(&mut r, q.alpha);
    let terms: Vec<u64> = terms_row(&q.terms, x, q.alpha);
    extend(&mut r, &terms);
    r
}

/// Every fold point has an inverse of its double.
pub open spec fn rounds_ok(rounds: Seq<FoldRound>) -> bool {
    forall|k: int| 0 <= k < rounds.len() ==> red(2 * (#[trigger] rounds[k]).s) != 0
}

/// Whether every fold point has an inverse of its double.
pub fn rounds_are_ok(rounds: &Vec<FoldRound>) -> (r: bool)
    ensures
        r == rounds_ok(rounds@),
{
    let n: usize = rounds.len();
    for k in 0..n
        invariant
            n == rounds.len(),
            forall|j: int| 0 <= j < k ==> red(2 * (#[trigger] rounds@[j]).s) != 0,
    {
        let d: u64 = fmul(2, rounds[k].s);
        if d == 0 {
            assert(red(2 * rounds@[k as int].s) == 0);
            return false;
        }
    }
    true
}

/// Whether a query can be put into a trace.
pub fn query_is_ok(q: &Query, n: usize) -> (r: bool)
    requires
        n <= 32,
    ensures
        r == query_ok(*q, n as int),
{
    let (_acc, x) = acc_row(q.index, n);
    off_points_at(&q.terms, x) && rounds_are_ok(&q.rounds)
}

/// One fold: the group is the running evaluation and its sibling, in the order of the bit.
pub open spec fn fold_one(e: (int, int), rd: FoldRound) -> (int, int) {
    if rd.bit {
        fold_value(rd.sib@, e, rd.beta@, rd.s as int)
    } else {
        fold_value(e, rd.sib@, rd.beta@, rd.s as int)
    }
}

/// The running evaluation after `k` rounds.
pub open spec fn running(ro: (int, int), rounds: Seq<FoldRound>, k: nat) -> (int, int)
    decreases k,
{
    if k == 0 {
        ro
    } else if k > rounds.len() {
        running(ro, rounds, (k - 1) as nat)
    } else {
        fold_one(running(ro, rounds, (k - 1) as nat), rounds[k - 1])
    }
}

/// Folds once.
pub fn fold_next(e: Challenge, rd: &FoldRound) -> (r: Challenge)
    requires
        red(2 * rd.s) != 0,
    ensures
        r@ == fold_one(e@, *rd),
{
    if rd.bit {
        native_fold(rd.sib, e, rd.beta, rd.s)
    } else {
        native_fold(e, rd.sib, rd.beta, rd.s)
    }
}

/// The nine cells of a fold row.
pub open spec fn fold_cells(e: (int, int), rd: FoldRound) -> Seq<int> {
    seq![
        e.0,
        e.1,
        rd.sib@.0,
        rd.sib@.1,
        rd.beta@.0,
        rd.beta@.1,
        if rd.bit {
            1int
        } else {
            0int
        },
        rd.s as int,
        crate::field::finv_z(2 * rd.s),
    ]
}

/// The nine cells of a row that folds nothing: the sibling is the running evaluation, the challenge
/// is zero, the point is one.
pub open spec fn idle_cells(e: (int, int)) -> Seq<int> {
    seq![e.0, e.1, e.0, e.1, 0, 0, 0, 1, HALF as int]
}

/// The nine cells of a row that only shows the running evaluation.
pub open spec fn shown_cells(e: (int, int)) -> Seq<int> {
    seq![e.0, e.1, 0, 0, 0, 0, 0, 0, 0]
}

pub fn fold_row(e: Challenge, rd: &FoldRound) -> (r: Vec<u64>)
    requires
        red(2 * rd.s) != 0,
    ensures
        ints(r@) == fold_cells(e@, *rd),
{
    let k: u64 = inverse_of_double(rd.s);
    let bit: u64 = if rd.bit {
        1
    } else {
        0
    };
    let r: Vec<u64> = vec![
        e.c0,
        e.c1,
        rd.sib.c0,
        rd.sib.c1,
        rd.beta.c0,
        rd.beta.c1,
        bit,
        rd.s,
        k,
    ];
    assert(ints(r@) =~= fold_cells(e@, *rd));
    r
}

pub fn idle_row(e: Challenge) -> (r: Vec<u64>)
    ensures
        ints(r@) == idle_cells(e@),
{
    let r: Vec<u64> = vec![e.c0, e.c1, e.c0, e.c1, 0, 0, 0, 1, HALF];
    assert(ints(r@) =~= idle_cells(e@));
    r
}

pub fn shown_row(e: Challenge) -> (r: Vec<u64>)
    ensures
        ints(r@) == shown_cells(e@),
{
    let r: Vec<u64> = vec![e.c0, e.c1, 0, 0, 0, 0, 0, 0, 0];
    assert(ints(r@) =~= shown_cells(e@));
    r
}

/// The fold cells of row `r` of a chain whose rows beyond the rounds fold nothing.
pub open spec fn chain_cells(ro: (int, int), rounds: Seq<FoldRound>, r: int) -> Seq<int> {
    if r < rounds.len() {
        fold_cells(running(ro, rounds, r as nat), rounds[r])
    } else {
        idle_cells(running(ro, rounds, r as nat))
    }
}

/// The fold rows of a chain of `h` rows.
pub fn chain_fold_rows(ro: Challenge, rounds: &Vec<FoldRound>, h: usize) -> (t: Vec<Vec<u64>>)
    requires
        rounds_ok(rounds@),
    ensures
        t.len() == h,
        forall|r: int| 0 <= r < h ==> ints((#[trigger] t@[r])@) == chain_cells(ro@, rounds@, r),
{
    let n: usize = rounds.len();
    let mut t: Vec<Vec<u64>> = Vec::new();
    let mut e: Challenge = ro;
    for r in 0..h
        invariant
            n == rounds.len(),
            rounds_ok(rounds@),
            t.len() == r,
            e@ == running(ro@, rounds@, r as nat),
            forall|i: int| 0 <= i < r ==> ints((#[trigger] t@[i])@) == chain_cells(ro@, rounds@, i),
    {
        if r < n {
            assert(red(2 * rounds@[r as int].s) != 0);
            t.push(fold_row(e, &rounds[r]));
            e = fold_next(e, &rounds[r]);
        } else {
            t.push(idle_row(e));
        }
    }
    t
}

/// The fold cells of row `r` of a chain whose rows beyond the rounds only show the running
/// evaluation.
pub open spec fn bare_chain_cells(ro: (int, int), rounds: Seq<FoldRound>, r: int) -> Seq<int> {
    if r < rounds.len() {
        fold_cells(running(ro, rounds, r as nat), rounds[r])
    } else {
        shown_cells(running(ro, rounds, r as nat))
    }
}

pub fn bare_chain_rows(ro: Challenge, rounds: &Vec<FoldRound>, h: usize) -> (t: Vec<Vec<u64>>)
    requires
        rounds_ok(rounds@),
    ensures
        t.len() == h,
        forall|r: int|
            0 <= r < h ==> ints((#[trigger] t@[r])@) == bare_chain_cells(ro@, rounds@, r),
{
    let n: usize = rounds.len();
    let mut t: Vec<Vec<u64>> = Vec::new();
    let mut e: Challenge = ro;
    for r in 0..h
        invariant
            n == rounds.len(),
            rounds_ok(rounds@),
            t.len() == r,
            e@ == running(ro@, rounds@, r as nat),
            forall|i: int|
                0 <= i < r ==> ints((#[trigger] t@[i])@) == bare_chain_cells(ro@, rounds@, i),
    {
        if r < n {
            assert(red(2 * rounds@[r as int].s) != 0);
            t.push(fold_row(e, &rounds[r]));
            e = fold_next(e, &rounds[r]);
        } else {
            t.push(shown_row(e));
        }
    }
    t
}

/// Whether bits 32 to `32 + k` of `v` are all set.
pub open spec fn high_run(v: int, k: nat) -> int
    decreases k,
{
    if k == 0 {
        bit_of(v, 32)
    } else {
        high_run(v, (k - 1) as nat) * bit_of(v, (32 + k) as int)
    }
}

/// The canonical decomposition of an element: the element, its 64 bits, the products over its high
/// bits.
pub open spec fn split_cells(felt: int) -> Seq<int> {
    let v = red(felt);
    seq![felt] + bit_cells(v, 64) + Seq::new(31, |k: int| high_run(v, (k + 1) as nat))
}

pub fn split_row(felt: u64) -> (r: Vec<u64>)
    ensures
        ints(r@) == split_cells(felt as int),
{
    let v: u64 = felt % P;
    let mut r: Vec<u64> = vec![felt];
    assert(ints(r@) =~= seq![felt as int]);
    let bits: Vec<u64> = bit_row(v, 64);
    extend(&mut r, &bits);
    let mut qs: Vec<u64> = Vec::new();
    let mut q: u64 = bit_at(v, 32);
    for k in 0..31
        invariant
            q == high_run(v as int, k as nat),
            q <= 1,
            qs.len() == k,
            forall|j: int| 0 <= j < k ==> #[trigger] qs@[j] == high_run(v as int, (j + 1) as nat),
    {
        let b: u64 = bit_at(v, 33 + k);
        assert(q * b <= 1 && (q == 0 ==> q * b == 0) && (q == 1 ==> q * b == b)) by (nonlinear_arith)
            requires
                q <= 1,
                b <= 1,
        ;
        assert((k + 1) as nat - 1 == k);
        q = if q == 1 {
            b
        } else {
            0
        };
        qs.push(q);
    }
    assert(ints(qs@) =~= Seq::new(31, |k: int| high_run(v as int, (k + 1) as nat)));
    extend(&mut r, &qs);
    r
}

} // verus!
