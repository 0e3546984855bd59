//! Binary digits.
use vstd::arithmetic::power2::{lemma2_to64, lemma_pow2_pos, lemma_pow2_unfold, pow2};
use vstd::prelude::*;

verus! {

/// `v` without its `k` lowest bits.
pub open spec fn shr_z(v: int, k: nat) -> int
    decreases k,
{
    if k == 0 {
        v
    } else {
        shr_z(v, (k - 1) as nat) / 2
    }
}

/// Bit `k` of `v`.
pub open spec fn bit_of(v: int, k: int) -> int {
    shr_z(v, k as nat) % 2
}

/// Dropping bits is dividing by a power of two.
pub proof fn lemma_shr(v: int, k: nat)
    requires
        v >= 0,
    ensures
        shr_z(v, k) == v / (pow2(k) as int),
        0 <= shr_z(v, k) <= v,
    decreases k,
{
    lemma2_to64();
    if k > 0 {
        let j = (k - 1) as nat;
        lemma_shr(v, j);
        lemma_pow2_unfold(k);
        lemma_pow2_pos(j);
        vstd::arithmetic::div_mod::lemma_div_denominator(v, pow2(j) as int, 2);
        assert(pow2(j) as int * 2 == pow2(k) as int);
    } else {
        vstd::arithmetic::div_mod::lemma_div_basics(v);
    }
}

/// Dropping bits one by one or all at once is the same.
pub proof fn lemma_shr_add(v: int, a: nat, b: nat)
    ensures
        shr_z(shr_z(v, a), b) == shr_z(v, a + b),
    decreases b,
{
    if b > 0 {
        lemma_shr_add(v, a, (b - 1) as nat);
    }
}

/// The number that the `n` lowest bits of `v` make up.
pub open spec fn low_z(v: int, n: nat) -> int
    decreases n,
{
    if n == 0 {
        0
    } else {
        low_z(v, (n - 1) as nat) + bit_of(v, n - 1) * pow2((n - 1) as nat)
    }
}

/// A number is its low bits and what is left without them.
pub proof fn lemma_low(v: int, n: nat)
    requires
        v >= 0,
    ensures
        v == low_z(v, n) + shr_z(v, n) * pow2(n),
        0 <= low_z(v, n) < pow2(n),
        0 <= shr_z(v, n),
    decreases n,
{
    lemma2_to64();
    if n > 0 {
        let m = (n - 1) as nat;
        lemma_low(v, m);
        lemma_pow2_unfold(n);
        lemma_pow2_pos(m);
        let (s, t, b, p) = (shr_z(v, m), shr_z(v, n), bit_of(v, n - 1), pow2(m) as int);
        assert(s == 2 * t + b && 0 <= b <= 1);
        assert(s * p == t * (2 * p) + b * p) by (nonlinear_arith)
            requires
                s == 2 * t + b,
        ;
        assert(0 <= b * p <= p) by (nonlinear_arith)
            requires
                0 <= b <= 1,
                p >= 0,
        ;
    } else {
        assert(v * 1 == v);
    }
}

/// A number below a power of two is its low bits.
pub proof fn lemma_low_whole(v: int, n: nat)
    requires
        0 <= v < pow2(n),
    ensures
        low_z(v, n) == v,
        shr_z(v, n) == 0,
{
    lemma_low(v, n);
    let (s, p) = (shr_z(v, n), pow2(n) as int);
    if s >= 1 {
        assert(s * p >= p) by (nonlinear_arith)
            requires
                s >= 1,
                p >= 0,
        ;
    }
    assert(0 * p == 0);
}

/// The low bits of a number are what is left of it modulo a power of two.
pub proof fn lemma_low_mod(v: int, n: nat)
    requires
        v >= 0,
    ensures
        low_z(v, n) == v % (pow2(n) as int),
{
    lemma_low(v, n);
    lemma_pow2_pos(n);
    let (s, p) = (shr_z(v, n), pow2(n) as int);
    vstd::arithmetic::div_mod::lemma_fundamental_div_mod_converse(v, p, s, low_z(v, n));
}

/// Bits beyond a power of two that bounds the number are clear.
pub proof fn lemma_high_clear(v: int, n: nat, k: nat)
    requires
        0 <= v < pow2(n),
        n <= k,
    ensures
        shr_z(v, k) == 0,
        bit_of(v, k as int) == 0,
    decreases k,
{
    if k == n {
        lemma_low_whole(v, n);
    } else {
        lemma_high_clear(v, n, (k - 1) as nat);
    }
}

/// Bit `i` of `v`.
pub fn bit_at(v: u64, i: usize) -> (r: u64)
    requires
        i < 64,
    ensures
        r == bit_of(v as int, i as int),
        r <= 1,
{
    proof {
        vstd::bits::lemma_u64_shr_is_div(v, i as u64);
        lemma_shr(v as int, i as nat);
    }
    (v >> (i as u64)) % 2
}

/// `2^k`.
pub fn pow2_u64(k: usize) -> (r: u64)
    requires
        k < 64,
    ensures
        r == pow2(k as nat),
        r > 0,
{
    let mut r: u64 = 1;
    proof {
        vstd::arithmetic::power2::lemma2_to64();
    }
    for i in 0..k
        invariant
            k < 64,
            r == pow2(i as nat),
    {
        proof {
            vstd::arithmetic::power2::lemma_pow2_unfold((i + 1) as nat);
            vstd::arithmetic::power2::lemma2_to64();
            if i + 1 < 63 {
                vstd::arithmetic::power2::lemma_pow2_strictly_increases((i + 1) as nat, 63);
            }
            vstd::arithmetic::power2::lemma2_to64_rest();
        }
        r = 2 * r;
    }
    proof {
        vstd::arithmetic::power2::lemma_pow2_pos(k as nat);
    }
    r
}

/// `v` without its `k` lowest bits.
pub fn shift_right(v: u64, k: usize) -> (r: u64)
    ensures
        r == shr_z(v as int, k as nat),
{
    let mut r: u64 = v;
    for i in 0..k
        invariant
            r == shr_z(v as int, i as nat),
    {
        r = r / 2;
    }
    r
}

/// An index without its `k` lowest bits.
pub fn shift_index(v: usize, k: usize) -> (r: usize)
    ensures
        r == shr_z(v as int, k as nat),
        r * pow2(k as nat) <= v,
{
    proof {
        lemma_shr(v as int, k as nat);
        lemma_pow2_pos(k as nat);
        vstd::arithmetic::div_mod::lemma_fundamental_div_mod(v as int, pow2(k as nat) as int);
        vstd::arithmetic::div_mod::lemma_mod_bound(v as int, pow2(k as nat) as int);
        vstd::arithmetic::mul::lemma_mul_is_commutative(
            pow2(k as nat) as int,
            shr_z(v as int, k as nat),
        );
    }
    let mut r: usize = v;
    for i in 0..k
        invariant
            r == shr_z(v as int, i as nat),
    {
        r = r / 2;
    }
    r
}

/// The number that the `n` lowest bits of `v`, read backwards, make up.
pub open spec fn rev_z(v: int, n: nat) -> int
    decreases n,
{
    if n == 0 {
        0
    } else {
        2 * rev_z(v, (n - 1) as nat) + bit_of(v, n - 1)
    }
}

pub proof fn lemma_rev_bound(v: int, n: nat)
    ensures
        0 <= rev_z(v, n) < pow2(n),
    decreases n,
{
    lemma2_to64();
    if n > 0 {
        lemma_rev_bound(v, (n - 1) as nat);
        lemma_pow2_unfold(n);
    }
}

/// Bit `i` of a reversal is bit `n - 1 - i`.
pub proof fn lemma_rev_bit(v: int, n: nat, i: nat)
    requires
        i < n,
    ensures
        bit_of(rev_z(v, n), i as int) == bit_of(v, n - 1 - i),
    decreases n,
{
    let m = (n - 1) as nat;
    let r = rev_z(v, n);
    lemma_rev_bound(v, m);
    assert(r / 2 == rev_z(v, m) && r % 2 == bit_of(v, n - 1));
    if i > 0 {
        let j = (i - 1) as nat;
        lemma_rev_bit(v, m, j);
        lemma_shr_add(r, 1, j);
        assert(shr_z(r, 1) == r / 2) by {
            reveal_with_fuel(shr_z, 2);
        }
    }
}

/// A number below a power of two is determined by its bits.
pub proof fn lemma_same_bits(a: int, b: int, n: nat)
    requires
        0 <= a < pow2(n),
        0 <= b < pow2(n),
        forall|i: int| 0 <= i < n ==> #[trigger] bit_of(a, i) == bit_of(b, i),
    ensures
        a == b,
{
    lemma_low_whole(a, n);
    lemma_low_whole(b, n);
    lemma_same_low(a, b, n);
}

proof fn lemma_same_low(a: int, b: int, n: nat)
    requires
        forall|i: int| 0 <= i < n ==> #[trigger] bit_of(a, i) == bit_of(b, i),
    ensures
        low_z(a, n) == low_z(b, n),
    decreases n,
{
    if n > 0 {
        lemma_same_low(a, b, (n - 1) as nat);
        assert(bit_of(a, n - 1) == bit_of(b, n - 1));
    }
}

/// Reversing twice gives the number back.
pub proof fn law_reverse_twice(v: int, n: nat)
    requires
        0 <= v < pow2(n),
    ensures
        rev_z(rev_z(v, n), n) == v,
{
    let r = rev_z(v, n);
    lemma_rev_bound(v, n);
    lemma_rev_bound(r, n);
    assert forall|i: int| 0 <= i < n implies #[trigger] bit_of(rev_z(r, n), i) == bit_of(v, i) by {
        lemma_rev_bit(r, n, i as nat);
        lemma_rev_bit(v, n, (n - 1 - i) as nat);
    }
    lemma_same_bits(rev_z(r, n), v, n);
}

/// The `n` lowest bits of `v`, read backwards.
pub fn reverse_bits_len(v: usize, n: usize) -> (r: usize)
    requires
        n <= usize::BITS,
    ensures
        r == rev_z(v as int, n as nat),
{
    let mut r: usize = 0;
    let mut rest: usize = v;
    for i in 0..n
        invariant
            n <= usize::BITS,
            r == rev_z(v as int, i as nat),
            rest == shr_z(v as int, i as nat),
    {
        proof {
            lemma_rev_bound(v as int, (i + 1) as nat);
            lemma_usize_pow2(n as nat);
            if i + 1 < n {
                vstd::arithmetic::power2::lemma_pow2_strictly_increases((i + 1) as nat, n as nat);
            }
        }
        r = 2 * r + rest % 2;
        rest = rest / 2;
    }
    r
}

proof fn lemma_usize_pow2(n: nat)
    requires
        n <= usize::BITS,
    ensures
        pow2(n) <= usize::MAX + 1,
{
    lemma2_to64();
    if n < usize::BITS {
        vstd::arithmetic::power2::lemma_pow2_strictly_increases(n, usize::BITS as nat);
    }
}

} // verus!
