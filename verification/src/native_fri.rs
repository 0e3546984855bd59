//! The low-degree test on plain values: the reduced openings of a query, the fold along its commit
//! phase, and the check of all queries.
use crate::bits::{lemma_rev_bound, reverse_bits_len, rev_z};
use crate::challenger::views;
use crate::cols::is_pow2;
use crate::field::{
    eadd, ecanonical, efrom, emul, ered, ezero, fmul, lemma_econg_add, lemma_econg_mul, lemma_ered,
    lemma_red_mul, lemma_red_red, red, two_adic_gen, two_adic_generator, zadd, zmul, Challenge, P,
};
use crate::monolith::general::general_fold;
use p3_field::extension::BinomialExtensionField;
use p3_field::{BasedVectorSpace, PrimeField64};
use p3_fri::{FriFoldingStrategy, TwoAdicFriFolding};
use p3_goldilocks::Goldilocks;
use vstd::arithmetic::power2::{lemma_pow2_unfold, pow2};
use vstd::prelude::*;

verus! {

/// How often `n` can be halved before it is at most one.
pub open spec fn log_z(n: int) -> nat
    decreases n,
{
    if n <= 1 {
        0
    } else {
        1 + log_z(n / 2)
    }
}

/// A power of two that fits has fewer digits than the machine word.
pub proof fn lemma_log_fits(k: nat)
    requires
        pow2(k) <= usize::MAX,
    ensures
        k < usize::BITS,
{
    vstd::arithmetic::power2::lemma2_to64();
    if k >= usize::BITS {
        let b = usize::BITS as nat;
        if b < k {
            vstd::arithmetic::power2::lemma_pow2_strictly_increases(b, k);
        }
    }
}

/// The exponent of a power of two.
pub fn log2_strict(n: usize) -> (r: usize)
    requires
        is_pow2(n as int),
    ensures
        r == log_z(n as int),
        pow2(r as nat) == n,
        r < usize::BITS,
{
    let mut k: usize = 0;
    let mut rest: usize = n;
    proof {
        vstd::arithmetic::power2::lemma2_to64();
    }
    while rest > 1
        invariant
            is_pow2(rest as int),
            rest * pow2(k as nat) == n,
            k + log_z(rest as int) == log_z(n as int),
            k + rest <= n,
        decreases rest,
    {
        proof {
            lemma_pow2_unfold((k + 1) as nat);
            let (m, p) = (rest as int, pow2(k as nat) as int);
            assert((m / 2) * (2 * p) == m * p) by (nonlinear_arith)
                requires
                    m % 2 == 0,
            ;
        }
        rest = rest / 2;
        k = k + 1;
    }
    proof {
        assert(rest == 1);
        assert(1 * pow2(k as nat) == pow2(k as nat));
        lemma_log_fits(k as nat);
    }
    k
}

/// `x^n` in the field.
pub open spec fn pow_z(x: int, n: nat) -> int
    decreases n,
{
    if n == 0 {
        1
    } else {
        red(x * pow_z(x, (n - 1) as nat))
    }
}

/// Exponents add.
pub proof fn lemma_pow_add(x: int, a: nat, b: nat)
    ensures
        pow_z(x, a + b) == red(pow_z(x, a) * pow_z(x, b)),
    decreases a,
{
    if a == 0 {
        if b == 0 {
        } else {
            lemma_red_red(x * pow_z(x, (b - 1) as nat));
        }
    } else {
        let m = (a - 1) as nat;
        lemma_pow_add(x, m, b);
        let (p, q) = (pow_z(x, m), pow_z(x, b));
        assert(a + b - 1 == m + b);
        lemma_red_mul(x, p * q);
        lemma_red_mul(x * p, q);
        assert(x * (p * q) == (x * p) * q) by (nonlinear_arith);
        lemma_red_red(p * q);
        lemma_red_red(x * p);
        lemma_red_mul(x, red(p * q));
        lemma_red_mul(red(x * p), q);
    }
}

/// Raises `x` to a power.
pub fn fpow(x: u64, n: u64) -> (r: u64)
    ensures
        r == pow_z(x as int, n as nat),
        r < P,
    decreases n,
{
    if n == 0 {
        return 1;
    }
    let h: u64 = fpow(x, n / 2);
    let s: u64 = fmul(h, h);
    proof {
        lemma_pow_add(x as int, (n / 2) as nat, (n / 2) as nat);
    }
    if n % 2 == 0 {
        s
    } else {
        assert((n - 1) as nat == (n / 2) as nat + (n / 2) as nat);
        fmul(x, s)
    }
}

/// The value of a polynomial, given by its coefficients from the lowest on, at a point.
pub open spec fn poly_at(coeffs: Seq<(int, int)>, x: (int, int)) -> (int, int)
    decreases coeffs.len(),
{
    if coeffs.len() == 0 {
        (0, 0)
    } else {
        zadd(coeffs[0], zmul(poly_at(coeffs.skip(1), x), x))
    }
}

/// Evaluates the final polynomial at a point.
pub fn eval_final_poly(final_poly: &[Challenge], x: Challenge) -> (r: Challenge)
    ensures
        r@ == ered(poly_at(views(final_poly@), x@)),
        ecanonical(r),
{
    let n: usize = final_poly.len();
    let ghost all = views(final_poly@);
    let mut eval: Challenge = ezero();
    assert(all.skip(n as int) =~= Seq::<(int, int)>::empty());
    for i in 0..n
        invariant
            n == final_poly@.len(),
            all == views(final_poly@),
            eval@ == ered(poly_at(all.skip(n - i), x@)),
            ecanonical(eval),
    {
        let j: usize = n - 1 - i;
        proof {
            let t = all.skip(j as int);
            let p = poly_at(all.skip(j + 1), x@);
            assert(t.skip(1) =~= all.skip(j + 1));
            assert(t[0] == final_poly@[j as int]@);
            lemma_ered(p);
            lemma_econg_mul(ered(p), p, x@, x@);
            lemma_ered(zmul(ered(p), x@));
            lemma_econg_add(ered(zmul(ered(p), x@)), zmul(p, x@), t[0], t[0]);
            assert(zadd(zmul(p, x@), t[0]) == zadd(t[0], zmul(p, x@)));
        }
        eval = eadd(emul(eval, x), final_poly[j]);
    }
    assert(all.skip(0) =~= all);
    eval
}

/// The point of a query in the subgroup of order `2^log_height`.
pub open spec fn query_point(index: int, log_height: nat) -> int {
    pow_z(two_adic_gen(log_height as int), rev_z(index, log_height) as nat)
}

/// The point of a query in a subgroup.
pub fn subgroup_point(index: usize, log_height: usize) -> (r: u64)
    requires
        log_height <= 32,
    ensures
        r == query_point(index as int, log_height as nat),
        r < P,
{
    proof {
        lemma_rev_bound(index as int, log_height as nat);
    }
    let rev: usize = reverse_bits_len(index, log_height);
    fpow(two_adic_generator(log_height), rev as u64)
}

/// The point at which the final polynomial of a query is evaluated.
pub fn final_query_point(domain_index: usize, log_global_max_height: usize) -> (r: Challenge)
    requires
        log_global_max_height <= 32,
    ensures
        r@ == (query_point(domain_index as int, log_global_max_height as nat), 0int),
        ecanonical(r),
{
    efrom(subgroup_point(domain_index, log_global_max_height))
}

/// Puts a list of `2^k` elements into bit-reversed order.
pub fn reverse_slice_index_bits(xs: &mut Vec<u64>)
    requires
        old(xs).len() == 0 || is_pow2(old(xs).len() as int),
    ensures
        final(xs)@ == Seq::new(
            old(xs)@.len(),
            |i: int| old(xs)@[rev_z(i, log_z(old(xs).len() as int))],
        ),
{
    let n: usize = xs.len();
    if n == 0 {
        assert(xs@ =~= Seq::new(
            old(xs)@.len(),
            |i: int| old(xs)@[rev_z(i, log_z(old(xs).len() as int))],
        ));
        return;
    }
    let log_n: usize = log2_strict(n);
    let mut out: Vec<u64> = Vec::new();
    for i in 0..n
        invariant
            n == xs.len(),
            xs@ == old(xs)@,
            log_n < usize::BITS,
            log_n == log_z(n as int),
            pow2(log_n as nat) == n,
            out.len() == i,
            forall|j: int| 0 <= j < i ==> #[trigger] out@[j] == old(xs)@[rev_z(j, log_n as nat)],
    {
        proof {
            lemma_rev_bound(i as int, log_n as nat);
        }
        out.push(xs[reverse_bits_len(i, log_n)]);
    }
    assert(out@ =~= Seq::new(
        old(xs)@.len(),
        |i: int| old(xs)@[rev_z(i, log_z(old(xs).len() as int))],
    ));
    *xs = out;
}

/// The points of a fold group: the coset of the subgroup of order `2^log_arity` that the folded
/// index selects, in bit-reversed order.
pub open spec fn fold_points(index: int, log_height: nat, log_arity: nat) -> Seq<int> {
    let start = pow_z(two_adic_gen((log_height + log_arity) as int), rev_z(index, log_height) as nat);
    Seq::new(
        pow2(log_arity),
        |i: int| red(start * pow_z(two_adic_gen(log_arity as int), rev_z(i, log_arity) as nat)),
    )
}

/// The first point from `i` on that the challenge is at.
pub open spec fn hit(beta: (int, int), xs: Seq<int>, i: int) -> Option<int>
    decreases xs.len() - i,
{
    if i >= xs.len() {
        None
    } else if ered((beta.0 - xs[i], beta.1)) == (0int, 0int) {
        Some(i)
    } else {
        hit(beta, xs, i + 1)
    }
}

/// The fold of a group at a challenge: the evaluation at a point of the group that the challenge is
/// at, and otherwise the interpolation through the group.
pub open spec fn folded(
    index: int,
    log_height: nat,
    log_arity: nat,
    beta: (int, int),
    evals: Seq<(int, int)>,
) -> (int, int) {
    let xs = fold_points(index, log_height, log_arity);
    match hit(beta, xs, 0) {
        Some(i) => ered(evals[i]),
        None => general_fold(evals, beta, xs, log_arity),
    }
}

/// `TwoAdicFriFolding::fold_row` of p3-fri: the value at the challenge of the polynomial of lowest
/// degree through the group, by the barycentric formula over the points of the group. The outside
/// function panics where the group has another length than `2^log_arity`, or where a subgroup has
/// more than `2^32` elements. At height zero it reads the index as a whole word backwards, so an index
/// that the arity does not leave room for is left out there.
#[verifier::external_body]
pub(crate) fn fold_group(
    index: usize,
    log_height: usize,
    log_arity: usize,
    beta: Challenge,
    evals: &Vec<Challenge>,
) -> (r: Challenge)
    requires
        log_height + log_arity <= 32,
        evals.len() == pow2(log_arity as nat),
        log_height > 0 || index * pow2(log_arity as nat) <= usize::MAX,
    ensures
        r@ == folded(
            index as int,
            log_height as nat,
            log_arity as nat,
            beta@,
            views(evals@),
        ),
        ecanonical(r),
{
    let f: TwoAdicFriFolding<(), ()> = TwoAdicFriFolding(std::marker::PhantomData);
    let b = BinomialExtensionField::<Goldilocks, 2>::new([Goldilocks::new(beta.c0), Goldilocks::new(beta.c1)]);
    let e = evals.iter()
        .map(|x| BinomialExtensionField::<Goldilocks, 2>::new([Goldilocks::new(x.c0), Goldilocks::new(x.c1)]));
    let y = FriFoldingStrategy::<Goldilocks, _>::fold_row(&f, index, log_height, log_arity, b, e);
    let c: &[Goldilocks] = y.as_basis_coefficients_slice();
    Challenge { c0: c[0].as_canonical_u64(), c1: c[1].as_canonical_u64() }
}

} // verus!
