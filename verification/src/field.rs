//! The Goldilocks field `F_p`, `p = 2^64 - 2^32 + 1`, and its quadratic extension
//! `F_p[X] / (X^2 - 7)`.
//!
//! A base field element is a `u64`. Any `u64` stands for its residue class; every function of
//! this module returns the canonical representative, which is less than `P`. Contracts speak of
//! mathematical integers and of their residues `red(..)`.
use p3_field::extension::BinomialExtensionField;
use p3_field::{BasedVectorSpace, Field, PrimeField64, TwoAdicField};
use p3_goldilocks::Goldilocks;
use vstd::prelude::*;

verus! {

/// The order of the base field.
pub const P: u64 = 0xFFFF_FFFF_0000_0001;

/// `X^2 = W_EXT` in the quadratic extension.
pub const W_EXT: u64 = 7;

/// The multiplicative generator of the base field.
pub const GENERATOR: u64 = 7;

/// `1 / 2` in the base field.
pub const HALF: u64 = 0x7FFF_FFFF_8000_0001;

/// A base field element.
pub type Val = u64;

/// The canonical representative of a residue class.
pub open spec fn red(x: int) -> int {
    x % (P as int)
}

/// Congruence modulo the field order.
pub open spec fn cong(x: int, y: int) -> bool {
    red(x) == red(y)
}

/// Every element of `s` is a canonical representative.
pub open spec fn canonical(s: Seq<u64>) -> bool {
    forall|i: int| 0 <= i < s.len() ==> #[trigger] s[i] < P
}

/// The integers that a sequence of field elements holds.
pub open spec fn ints(s: Seq<u64>) -> Seq<int> {
    s.map(|i: int, x: u64| x as int)
}

pub proof fn lemma_red_bound(x: int)
    ensures
        0 <= red(x) < P,
{
}

pub proof fn lemma_red_small(x: int)
    requires
        0 <= x < P,
    ensures
        red(x) == x,
{
    vstd::arithmetic::div_mod::lemma_small_mod(x as nat, P as nat);
}

pub proof fn lemma_red_red(x: int)
    ensures
        red(red(x)) == red(x),
{
    lemma_red_small(red(x));
}

/// Sums may be reduced early.
pub proof fn lemma_red_add(x: int, y: int)
    ensures
        red(red(x) + red(y)) == red(x + y),
        red(red(x) + y) == red(x + y),
        red(x + red(y)) == red(x + y),
{
    vstd::arithmetic::div_mod::lemma_add_mod_noop(x, y, P as int);
    vstd::arithmetic::div_mod::lemma_add_mod_noop_right(x, y, P as int);
    vstd::arithmetic::div_mod::lemma_add_mod_noop_right(y, x, P as int);
}

/// Differences may be reduced early.
pub proof fn lemma_red_sub(x: int, y: int)
    ensures
        red(red(x) - red(y)) == red(x - y),
        red(red(x) - y) == red(x - y),
        red(x - red(y)) == red(x - y),
{
    vstd::arithmetic::div_mod::lemma_sub_mod_noop(x, y, P as int);
    vstd::arithmetic::div_mod::lemma_sub_mod_noop_right(x, y, P as int);
    vstd::arithmetic::div_mod::lemma_sub_mod_noop(red(x), y, P as int);
    lemma_red_red(x);
}

/// Products may be reduced early.
pub proof fn lemma_red_mul(x: int, y: int)
    ensures
        red(red(x) * red(y)) == red(x * y),
        red(red(x) * y) == red(x * y),
        red(x * red(y)) == red(x * y),
{
    vstd::arithmetic::div_mod::lemma_mul_mod_noop_general(x, y, P as int);
}

pub proof fn lemma_cong_add(a: int, b: int, c: int, d: int)
    requires
        cong(a, b),
        cong(c, d),
    ensures
        cong(a + c, b + d),
{
    lemma_red_add(a, c);
    lemma_red_add(b, d);
}

pub proof fn lemma_cong_sub(a: int, b: int, c: int, d: int)
    requires
        cong(a, b),
        cong(c, d),
    ensures
        cong(a - c, b - d),
{
    lemma_red_sub(a, c);
    lemma_red_sub(b, d);
}

pub proof fn lemma_cong_mul(a: int, b: int, c: int, d: int)
    requires
        cong(a, b),
        cong(c, d),
    ensures
        cong(a * c, b * d),
{
    lemma_red_mul(a, c);
    lemma_red_mul(b, d);
}

/// A difference vanishes exactly when its terms are congruent.
pub proof fn lemma_cong_diff(a: int, b: int)
    ensures
        red(a - b) == 0 <==> cong(a, b),
{
    lemma_red_sub(a, b);
    lemma_red_bound(a);
    lemma_red_bound(b);
    if red(a - b) == 0 {
        let d: int = red(a) - red(b);
        if d > 0 {
            lemma_red_small(d);
        } else if d < 0 {
            lemma_red_small(d + P as int);
            vstd::arithmetic::div_mod::lemma_mod_add_multiples_vanish(d, P as int);
        }
    }
}

/// The sum of two field elements.
pub fn fadd(a: u64, b: u64) -> (r: u64)
    ensures
        r == red(a + b),
        r < P,
{
    ((a as u128 + b as u128) % (P as u128)) as u64
}

/// The difference of two field elements.
pub fn fsub(a: u64, b: u64) -> (r: u64)
    ensures
        r == red(a - b),
        r < P,
{
    let x: u64 = a % P;
    let y: u64 = b % P;
    proof {
        lemma_red_sub(a as int, b as int);
    }
    if x >= y {
        proof {
            lemma_red_small(x - y);
        }
        x - y
    } else {
        proof {
            lemma_red_small(x - y + P as int);
            vstd::arithmetic::div_mod::lemma_mod_add_multiples_vanish(x - y, P as int);
        }
        P - y + x
    }
}

/// The product of two field elements.
pub fn fmul(a: u64, b: u64) -> (r: u64)
    ensures
        r == red(a * b),
        r < P,
{
    assert(a * b <= 0xFFFF_FFFF_FFFF_FFFF * 0xFFFF_FFFF_FFFF_FFFF) by (nonlinear_arith)
        requires
            a <= 0xFFFF_FFFF_FFFF_FFFF,
            b <= 0xFFFF_FFFF_FFFF_FFFF,
    ;
    ((a as u128 * b as u128) % (P as u128)) as u64
}

/// The canonical representative of a field element.
pub fn fcanon(a: u64) -> (r: u64)
    ensures
        r == red(a as int),
        r < P,
{
    a % P
}

/// Whether two representatives stand for the same field element.
pub fn feq(a: u64, b: u64) -> (r: bool)
    ensures
        r == cong(a as int, b as int),
{
    a % P == b % P
}

/// `Goldilocks::inverse` of p3-field: the element whose product with `a` is one. The outside
/// function panics on zero, which `requires` leaves out.
#[verifier::external_body]
pub(crate) fn finv(a: u64) -> (r: u64)
    requires
        red(a as int) != 0,
    ensures
        r < P,
        red(a * r) == 1,
{
    Goldilocks::new(a).inverse().as_canonical_u64()
}

/// Whether `b` is the canonical inverse of `a`.
pub open spec fn is_inverse(a: int, b: int) -> bool {
    0 <= b < P && red(a * b) == 1
}

/// The canonical inverse of `a`, where there is one.
pub open spec fn finv_z(a: int) -> int {
    choose|b: int| is_inverse(a, b)
}

/// There is at most one canonical inverse.
pub proof fn lemma_inverse_unique(a: int, b: int, c: int)
    requires
        red(a * b) == 1,
        red(a * c) == 1,
    ensures
        cong(b, c),
{
    // b = b (a c) = (a b) c = c
    lemma_cong_mul(b, b, a * c, 1);
    lemma_cong_mul(c, c, a * b, 1);
    assert(b * (a * c) == c * (a * b)) by (nonlinear_arith);
    assert(b * 1 == b && c * 1 == c);
}

/// The canonical inverse is the one that the field has.
pub proof fn lemma_finv(a: int, b: int)
    requires
        is_inverse(a, b),
    ensures
        finv_z(a) == b,
        is_inverse(a, finv_z(a)),
{
    let c = finv_z(a);
    assert(is_inverse(a, c));
    lemma_inverse_unique(a, b, c);
    lemma_red_small(b);
    lemma_red_small(c);
}

/// The inverse depends on the residue alone.
pub proof fn lemma_finv_cong(a: int, b: int)
    requires
        cong(a, b),
        exists|c: int| is_inverse(a, c),
    ensures
        finv_z(a) == finv_z(b),
        is_inverse(b, finv_z(b)),
{
    let c = choose|c: int| is_inverse(a, c);
    lemma_cong_mul(a, b, c, c);
    lemma_finv(a, c);
    lemma_finv(b, c);
}

/// The inverse of a nonzero field element.
pub fn inverse(a: u64) -> (r: u64)
    requires
        red(a as int) != 0,
    ensures
        r == finv_z(a as int),
        is_inverse(a as int, r as int),
{
    let r: u64 = finv(a);
    proof {
        lemma_finv(a as int, r as int);
    }
    r
}

/// The generator of the subgroup of order `2^bits`, as p3-goldilocks tabulates it.
pub uninterp spec fn two_adic_gen(bits: int) -> int;

/// `Goldilocks::two_adic_generator` of p3-field, a table of nonzero canonical values in which the entry
/// for zero bits is one, that for one bit is minus one, and every other entry squares to the one
/// before it. The outside function panics beyond 32 bits.
#[verifier::external_body]
pub(crate) fn two_adic_generator(bits: usize) -> (r: u64)
    requires
        bits <= 32,
    ensures
        0 < r < P,
        r == two_adic_gen(bits as int),
        bits == 0 ==> r == 1,
        bits == 1 ==> r == P - 1,
        bits > 0 ==> red(r * r) == two_adic_gen(bits - 1),
{
    Goldilocks::two_adic_generator(bits).as_canonical_u64()
}

/// What is known of the generators: they are canonical and not zero, that of one bit is minus one,
/// and each squares to the one before it, down to one.
pub open spec fn generators() -> bool {
    &&& two_adic_gen(0) == 1
    &&& two_adic_gen(1) == P - 1
    &&& forall|b: int| 0 <= b <= 32 ==> 0 < #[trigger] two_adic_gen(b) < P
    &&& forall|b: int|
        0 < b <= 32 ==> red(#[trigger] two_adic_gen(b) * two_adic_gen(b)) == two_adic_gen(b - 1)
}

/// The generators of all subgroups whose order is a power of two.
pub fn generator_table() -> (r: Vec<u64>)
    ensures
        r.len() == 33,
        forall|b: int| 0 <= b <= 32 ==> #[trigger] r@[b] == two_adic_gen(b),
        generators(),
{
    let mut r: Vec<u64> = Vec::new();
    let n: usize = 33;
    for b in 0..n
        invariant
            n == 33,
            r.len() == b,
            forall|k: int| 0 <= k < b ==> #[trigger] r@[k] == two_adic_gen(k),
            forall|k: int| 0 <= k < b ==> 0 < #[trigger] two_adic_gen(k) < P,
            b > 0 ==> two_adic_gen(0) == 1,
            b > 1 ==> two_adic_gen(1) == P - 1,
            forall|k: int|
                0 < k < b ==> red(#[trigger] two_adic_gen(k) * two_adic_gen(k)) == two_adic_gen(
                    k - 1,
                ),
    {
        let g: u64 = two_adic_generator(b);
        r.push(g);
    }
    r
}

/// `x^(2^k)` in the field.
pub open spec fn pow2k(x: int, k: nat) -> int
    decreases k,
{
    if k == 0 {
        red(x)
    } else {
        let y = pow2k(x, (k - 1) as nat);
        red(y * y)
    }
}

/// Squares `x` `k` times.
pub fn exp_power_of_2(x: u64, k: usize) -> (r: u64)
    ensures
        r == pow2k(x as int, k as nat),
        r < P,
{
    let mut r: u64 = x % P;
    for i in 0..k
        invariant
            r == pow2k(x as int, i as nat),
            r < P,
    {
        r = fmul(r, r);
    }
    r
}

/// An element `c0 + c1 X` of the quadratic extension.
#[derive(Clone, Copy, Debug, PartialEq, Eq, Structural)]
pub struct Challenge {
    pub c0: u64,
    pub c1: u64,
}

impl View for Challenge {
    type V = (int, int);

    open spec fn view(&self) -> (int, int) {
        (self.c0 as int, self.c1 as int)
    }
}

/// Both coefficients are canonical representatives.
pub open spec fn ecanonical(x: Challenge) -> bool {
    x.c0 < P && x.c1 < P
}

pub open spec fn ered(x: (int, int)) -> (int, int) {
    (red(x.0), red(x.1))
}

pub open spec fn econg(x: (int, int), y: (int, int)) -> bool {
    cong(x.0, y.0) && cong(x.1, y.1)
}

pub open spec fn zadd(a: (int, int), b: (int, int)) -> (int, int) {
    (a.0 + b.0, a.1 + b.1)
}

pub open spec fn zsub(a: (int, int), b: (int, int)) -> (int, int) {
    (a.0 - b.0, a.1 - b.1)
}

/// The product in `Z[X] / (X^2 - 7)`.
pub open spec fn zmul(a: (int, int), b: (int, int)) -> (int, int) {
    (a.0 * b.0 + (W_EXT as int) * (a.1 * b.1), a.0 * b.1 + a.1 * b.0)
}

pub open spec fn zscale(a: (int, int), k: int) -> (int, int) {
    (a.0 * k, a.1 * k)
}

/// A base field element seen in the extension.
pub open spec fn zbase(x: int) -> (int, int) {
    (x, 0)
}

pub fn ezero() -> (r: Challenge)
    ensures
        r@ == (0int, 0int),
        ecanonical(r),
{
    Challenge { c0: 0, c1: 0 }
}

pub fn eone() -> (r: Challenge)
    ensures
        r@ == (1int, 0int),
        ecanonical(r),
{
    Challenge { c0: 1, c1: 0 }
}

pub fn eadd(a: Challenge, b: Challenge) -> (r: Challenge)
    ensures
        r@ == ered(zadd(a@, b@)),
        ecanonical(r),
{
    Challenge { c0: fadd(a.c0, b.c0), c1: fadd(a.c1, b.c1) }
}

pub fn esub(a: Challenge, b: Challenge) -> (r: Challenge)
    ensures
        r@ == ered(zsub(a@, b@)),
        ecanonical(r),
{
    Challenge { c0: fsub(a.c0, b.c0), c1: fsub(a.c1, b.c1) }
}

pub fn emul(a: Challenge, b: Challenge) -> (r: Challenge)
    ensures
        r@ == ered(zmul(a@, b@)),
        ecanonical(r),
{
    let p00: u64 = fmul(a.c0, b.c0);
    let p11: u64 = fmul(a.c1, b.c1);
    let w11: u64 = fmul(W_EXT, p11);
    let p01: u64 = fmul(a.c0, b.c1);
    let p10: u64 = fmul(a.c1, b.c0);
    proof {
        lemma_red_mul(W_EXT as int, a.c1 * b.c1);
        lemma_red_add(a.c0 * b.c0, (W_EXT as int) * (a.c1 * b.c1));
        lemma_red_add(a.c0 * b.c1, a.c1 * b.c0);
    }
    Challenge { c0: fadd(p00, w11), c1: fadd(p01, p10) }
}

/// The product with a base field element.
pub fn escale(a: Challenge, k: u64) -> (r: Challenge)
    ensures
        r@ == ered(zscale(a@, k as int)),
        ecanonical(r),
{
    Challenge { c0: fmul(a.c0, k), c1: fmul(a.c1, k) }
}

/// A base field element seen in the extension.
pub fn efrom(x: u64) -> (r: Challenge)
    ensures
        r@ == ered(zbase(x as int)),
        ecanonical(r),
{
    Challenge { c0: x % P, c1: 0 }
}

/// Whether two representatives stand for the same extension element.
pub fn eeq(a: Challenge, b: Challenge) -> (r: bool)
    ensures
        r == econg(a@, b@),
{
    feq(a.c0, b.c0) && feq(a.c1, b.c1)
}

/// `BinomialExtensionField::<Goldilocks, 2>::inverse` of p3-field: the element whose product with
/// `a` is one. The outside function panics on zero, which `requires` leaves out.
#[verifier::external_body]
pub(crate) fn einv(a: Challenge) -> (r: Challenge)
    requires
        ered(a@) != (0int, 0int),
    ensures
        ecanonical(r),
        ered(zmul(a@, r@)) == (1int, 0int),
{
    let x = BinomialExtensionField::<Goldilocks, 2>::new([Goldilocks::new(a.c0), Goldilocks::new(a.c1)]);
    let y = x.inverse();
    let c: &[Goldilocks] = y.as_basis_coefficients_slice();
    Challenge { c0: c[0].as_canonical_u64(), c1: c[1].as_canonical_u64() }
}

/// Whether `b` is the canonical inverse of `a` in the extension.
pub open spec fn is_einverse(a: (int, int), b: (int, int)) -> bool {
    b == ered(b) && ered(zmul(a, b)) == (1int, 0int)
}

/// The canonical inverse of `a` in the extension, where there is one.
pub open spec fn einv_z(a: (int, int)) -> (int, int) {
    choose|b: (int, int)| is_einverse(a, b)
}

pub proof fn lemma_econg_add(a: (int, int), b: (int, int), c: (int, int), d: (int, int))
    requires
        econg(a, b),
        econg(c, d),
    ensures
        econg(zadd(a, c), zadd(b, d)),
{
    lemma_cong_add(a.0, b.0, c.0, d.0);
    lemma_cong_add(a.1, b.1, c.1, d.1);
}

pub proof fn lemma_econg_sub(a: (int, int), b: (int, int), c: (int, int), d: (int, int))
    requires
        econg(a, b),
        econg(c, d),
    ensures
        econg(zsub(a, c), zsub(b, d)),
{
    lemma_cong_sub(a.0, b.0, c.0, d.0);
    lemma_cong_sub(a.1, b.1, c.1, d.1);
}

pub proof fn lemma_econg_mul(a: (int, int), b: (int, int), c: (int, int), d: (int, int))
    requires
        econg(a, b),
        econg(c, d),
    ensures
        econg(zmul(a, c), zmul(b, d)),
{
    let w = W_EXT as int;
    lemma_cong_mul(a.0, b.0, c.0, d.0);
    lemma_cong_mul(a.1, b.1, c.1, d.1);
    lemma_cong_mul(w, w, a.1 * c.1, b.1 * d.1);
    lemma_cong_add(a.0 * c.0, b.0 * d.0, w * (a.1 * c.1), w * (b.1 * d.1));
    lemma_cong_mul(a.0, b.0, c.1, d.1);
    lemma_cong_mul(a.1, b.1, c.0, d.0);
    lemma_cong_add(a.0 * c.1, b.0 * d.1, a.1 * c.0, b.1 * d.0);
}

pub proof fn lemma_econg_scale(a: (int, int), b: (int, int), k: int, l: int)
    requires
        econg(a, b),
        cong(k, l),
    ensures
        econg(zscale(a, k), zscale(b, l)),
{
    lemma_cong_mul(a.0, b.0, k, l);
    lemma_cong_mul(a.1, b.1, k, l);
}

/// Reduction keeps the residue class.
pub proof fn lemma_ered(a: (int, int))
    ensures
        econg(ered(a), a),
        ered(ered(a)) == ered(a),
{
    lemma_red_red(a.0);
    lemma_red_red(a.1);
}

pub proof fn lemma_zmul_comm(a: (int, int), b: (int, int))
    ensures
        zmul(a, b) == zmul(b, a),
{
    assert(a.0 * b.0 == b.0 * a.0 && a.1 * b.1 == b.1 * a.1 && a.0 * b.1 == b.1 * a.0 && a.1 * b.0
        == b.0 * a.1) by (nonlinear_arith);
}

pub proof fn lemma_zmul_assoc(a: (int, int), b: (int, int), c: (int, int))
    ensures
        zmul(zmul(a, b), c) == zmul(a, zmul(b, c)),
{
    let (a0, a1, b0, b1, c0, c1) = (a.0, a.1, b.0, b.1, c.0, c.1);
    lemma_expand(a0 * b0, a1 * b1, c0);
    lemma_expand(a0 * b0, a1 * b1, c1);
    lemma_expand(b0 * c0, b1 * c1, a0);
    lemma_expand(b0 * c0, b1 * c1, a1);
    lemma_distribute(a0 * b1, a1 * b0, c1);
    lemma_distribute(a0 * b1, a1 * b0, c0);
    lemma_distribute(b0 * c1, b1 * c0, a1);
    lemma_distribute(b0 * c1, b1 * c0, a0);
    lemma_triple(a0, b0, c0);
    lemma_triple(a1, b1, c0);
    lemma_triple(a0, b1, c1);
    lemma_triple(a1, b0, c1);
    lemma_triple(a0, b0, c1);
    lemma_triple(a1, b1, c1);
    lemma_triple(a0, b1, c0);
    lemma_triple(a1, b0, c0);
}

proof fn lemma_expand(x: int, y: int, z: int)
    ensures
        (x + 7 * y) * z == x * z + 7 * (y * z),
        z * (x + 7 * y) == x * z + 7 * (y * z),
{
    assert((x + 7 * y) * z == x * z + 7 * (y * z)) by (nonlinear_arith);
    assert(z * (x + 7 * y) == (x + 7 * y) * z) by (nonlinear_arith);
}

proof fn lemma_distribute(x: int, y: int, z: int)
    ensures
        (x + y) * z == x * z + y * z,
        z * (x + y) == x * z + y * z,
{
    assert((x + y) * z == x * z + y * z) by (nonlinear_arith);
    assert(z * (x + y) == (x + y) * z) by (nonlinear_arith);
}

proof fn lemma_triple(x: int, y: int, z: int)
    ensures
        (x * y) * z == x * (y * z),
        z * (x * y) == x * (y * z),
        (y * z) * x == x * (y * z),
{
    assert((x * y) * z == x * (y * z)) by (nonlinear_arith);
    assert(z * (x * y) == x * (y * z)) by (nonlinear_arith);
    assert((y * z) * x == x * (y * z)) by (nonlinear_arith);
}

/// There is at most one canonical inverse in the extension.
pub proof fn lemma_einverse_unique(a: (int, int), b: (int, int), c: (int, int))
    requires
        ered(zmul(a, b)) == (1int, 0int),
        ered(zmul(a, c)) == (1int, 0int),
    ensures
        econg(b, c),
{
    // b = b (a c) = (b a) c = c
    let one = (1int, 0int);
    lemma_red_small(1);
    lemma_red_small(0);
    lemma_econg_mul(b, b, zmul(a, c), one);
    lemma_econg_mul(zmul(a, b), one, c, c);
    lemma_zmul_assoc(b, a, c);
    lemma_zmul_comm(a, b);
    assert(zmul(b, one) == b) by {
        assert(b.0 * 1 == b.0 && b.1 * 0 == 0 && b.0 * 0 == 0 && b.1 * 1 == b.1);
    }
    assert(zmul(one, c) == c) by {
        assert(1 * c.0 == c.0 && 0 * c.1 == 0 && 1 * c.1 == c.1 && 0 * c.0 == 0);
    }
}

/// The canonical inverse is the one that the extension has.
pub proof fn lemma_einv(a: (int, int), b: (int, int))
    requires
        is_einverse(a, b),
    ensures
        einv_z(a) == b,
        is_einverse(a, einv_z(a)),
{
    let c = einv_z(a);
    assert(is_einverse(a, c));
    lemma_einverse_unique(a, b, c);
}

/// The inverse in the extension depends on the residue alone.
pub proof fn lemma_einv_cong(a: (int, int), b: (int, int))
    requires
        econg(a, b),
        exists|c: (int, int)| is_einverse(a, c),
    ensures
        einv_z(a) == einv_z(b),
        is_einverse(b, einv_z(b)),
{
    let c = choose|c: (int, int)| is_einverse(a, c);
    lemma_econg_mul(a, b, c, c);
    lemma_einv(a, c);
    lemma_einv(b, c);
}

/// The inverse of a nonzero extension element.
pub fn einverse(a: Challenge) -> (r: Challenge)
    requires
        ered(a@) != (0int, 0int),
    ensures
        r@ == einv_z(a@),
        is_einverse(a@, r@),
        ecanonical(r),
{
    let r: Challenge = einv(a);
    proof {
        lemma_red_small(r.c0 as int);
        lemma_red_small(r.c1 as int);
        lemma_einv(a@, r@);
    }
    r
}

} // verus!
