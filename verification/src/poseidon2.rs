//! The width-8 Poseidon2 permutation as a block of trace rows, and the constraints of one block.
//!
//! A permutation takes `BLOCK` rows: row 0 is the input, row 1 follows the initial linear layer,
//! and each later row follows one round (4 full, 22 partial, 4 full). Row `BLOCK - 1` is the
//! output.
use crate::expr::{cst, cur_range, Env, Expr, nxt_range, per, vals};
use crate::field::{
    cong, fadd, fmul, ints, lemma_cong_diff, lemma_red_mul, lemma_red_red, red, HALF, P,
};
use p3_field::PrimeField64;
use p3_goldilocks::{default_goldilocks_poseidon2_8, Goldilocks};
use p3_symmetric::Permutation;
use vstd::prelude::*;

verus! {

/// The number of rows of a permutation block.
pub const BLOCK: usize = 32;

/// The number of lanes of the permutation.
pub const W: usize = 8;

/// The number of periodic columns of `periodic_table`.
pub const ROUND_COLS: usize = 11;

/// The S-box.
pub open spec fn pow7z(x: int) -> int {
    let x2 = x * x;
    (x2 * x2) * (x2 * x)
}

/// The 4x4 block of the external linear layer.
pub open spec fn mat4z(s: Seq<int>, at: int, i: int) -> int {
    let (x0, x1, x2, x3) = (s[at], s[at + 1], s[at + 2], s[at + 3]);
    if i == 0 {
        2 * x0 + 3 * x1 + x2 + x3
    } else if i == 1 {
        x0 + 2 * x1 + 3 * x2 + x3
    } else if i == 2 {
        x0 + x1 + 2 * x2 + 3 * x3
    } else {
        3 * x0 + x1 + x2 + 2 * x3
    }
}

/// Lane `i` of the external linear layer.
pub open spec fn ext_lane(s: Seq<int>, i: int) -> int {
    if i < 4 {
        2 * mat4z(s, 0, i) + mat4z(s, 4, i)
    } else {
        mat4z(s, 0, i - 4) + 2 * mat4z(s, 4, i - 4)
    }
}

/// The external linear layer.
pub open spec fn ext_linear_z(s: Seq<int>) -> Seq<int> {
    Seq::new(8, |i: int| ext_lane(s, i))
}

/// The diagonal of the internal linear layer: -2, 1, 2, 1/2, 3, -1/2, -3, -4.
pub open spec fn diag(i: int) -> int {
    if i == 0 {
        P - 2
    } else if i == 1 {
        1
    } else if i == 2 {
        2
    } else if i == 3 {
        HALF as int
    } else if i == 4 {
        3
    } else if i == 5 {
        P - HALF
    } else if i == 6 {
        P - 3
    } else {
        P - 4
    }
}

pub open spec fn sum8(s: Seq<int>) -> int {
    s[0] + s[1] + s[2] + s[3] + s[4] + s[5] + s[6] + s[7]
}

/// The internal linear layer.
pub open spec fn int_linear_z(s: Seq<int>) -> Seq<int> {
    Seq::new(8, |i: int| sum8(s) + diag(i) * s[i])
}

/// A full round with round constants `rc`.
pub open spec fn full_round_z(s: Seq<int>, rc: Seq<int>) -> Seq<int> {
    ext_linear_z(Seq::new(8, |i: int| pow7z(s[i] + rc[i])))
}

/// A partial round with round constant `rc`.
pub open spec fn partial_round_z(s: Seq<int>, rc: int) -> Seq<int> {
    int_linear_z(
        Seq::new(
            8,
            |i: int|
                if i == 0 {
                    pow7z(s[0] + rc)
                } else {
                    s[i]
                },
        ),
    )
}

/// Lane `lane` of the constants of the first four full rounds.
pub uninterp spec fn external_initial_rc(round: int, lane: int) -> int;

/// Lane `lane` of the constants of the last four full rounds.
pub uninterp spec fn external_final_rc(round: int, lane: int) -> int;

/// The constants of the partial rounds.
pub uninterp spec fn internal_rc(round: int) -> int;

/// `GOLDILOCKS_POSEIDON2_RC_8_EXTERNAL_INITIAL` of p3-goldilocks, read as canonical values.
#[verifier::external_body]
fn external_initial_constant(round: usize, lane: usize) -> (r: u64)
    requires
        round < 4,
        lane < 8,
    ensures
        r == external_initial_rc(round as int, lane as int),
        r < P,
{
    p3_goldilocks::GOLDILOCKS_POSEIDON2_RC_8_EXTERNAL_INITIAL[round][lane].as_canonical_u64()
}

/// `GOLDILOCKS_POSEIDON2_RC_8_EXTERNAL_FINAL` of p3-goldilocks, read as canonical values.
#[verifier::external_body]
fn external_final_constant(round: usize, lane: usize) -> (r: u64)
    requires
        round < 4,
        lane < 8,
    ensures
        r == external_final_rc(round as int, lane as int),
        r < P,
{
    p3_goldilocks::GOLDILOCKS_POSEIDON2_RC_8_EXTERNAL_FINAL[round][lane].as_canonical_u64()
}

/// `GOLDILOCKS_POSEIDON2_RC_8_INTERNAL` of p3-goldilocks, read as canonical values.
#[verifier::external_body]
fn internal_constant(round: usize) -> (r: u64)
    requires
        round < 22,
    ensures
        r == internal_rc(round as int),
        r < P,
{
    p3_goldilocks::GOLDILOCKS_POSEIDON2_RC_8_INTERNAL[round].as_canonical_u64()
}

/// What leads from a row of a block to the next one.
pub enum Step {
    Init,
    Full,
    Partial,
    Idle,
}

/// The step from row `k` of a block to row `k + 1`.
pub open spec fn step_kind(k: int) -> Step {
    if k == 0 {
        Step::Init
    } else if 1 <= k <= 4 || 27 <= k <= 30 {
        Step::Full
    } else if 5 <= k <= 26 {
        Step::Partial
    } else {
        Step::Idle
    }
}

/// Lane `lane` of the round constants that the step from row `k` adds.
pub open spec fn round_rc(k: int, lane: int) -> int {
    if 1 <= k <= 4 {
        external_initial_rc(k - 1, lane)
    } else if 5 <= k <= 26 {
        if lane == 0 {
            internal_rc(k - 5)
        } else {
            0
        }
    } else if 27 <= k <= 30 {
        external_final_rc(k - 27, lane)
    } else {
        0
    }
}

pub open spec fn round_rcs(k: int) -> Seq<int> {
    Seq::new(8, |i: int| round_rc(k, i))
}

/// The integer values of row `k + 1`, before reduction, from those of row `k`.
#[verifier::opaque]
pub open spec fn step_z(k: int, s: Seq<int>) -> Seq<int> {
    match step_kind(k) {
        Step::Init => ext_linear_z(s),
        Step::Full => full_round_z(s, round_rcs(k)),
        Step::Partial => partial_round_z(s, round_rc(k, 0)),
        Step::Idle => s,
    }
}

pub open spec fn red_seq(s: Seq<int>) -> Seq<int> {
    Seq::new(s.len(), |i: int| red(s[i]))
}

/// Row `k` of the block that permutes `input`.
#[verifier::opaque]
pub open spec fn perm_row(input: Seq<int>, k: nat) -> Seq<int>
    decreases k,
{
    if k == 0 {
        input
    } else {
        red_seq(step_z(k - 1, perm_row(input, (k - 1) as nat)))
    }
}

/// The Poseidon2 permutation.
pub open spec fn perm(input: Seq<int>) -> Seq<int> {
    perm_row(input, 31)
}

/// `permute` of the width-8 permutation that `default_goldilocks_poseidon2_8` of p3-goldilocks
/// builds: the initial linear layer, four full, 22 partial and four full rounds, in canonical
/// form. `native_steps` computes the same rows one by one.
#[verifier::external_body]
fn permute(state: [u64; 8]) -> (r: [u64; 8])
    ensures
        ints(r@) == perm(ints(state@)),
{
    default_goldilocks_poseidon2_8().permute(state.map(Goldilocks::new)).map(
        |x| x.as_canonical_u64(),
    )
}

/// The permutation of a state.
pub fn native_permute(state: [u64; 8]) -> (r: [u64; 8])
    ensures
        ints(r@) == perm(ints(state@)),
{
    permute(state)
}

pub fn pow7(x: u64) -> (r: u64)
    ensures
        r == red(pow7z(x as int)),
        r < P,
{
    let x2: u64 = fmul(x, x);
    let x3: u64 = fmul(x2, x);
    let x4: u64 = fmul(x2, x2);
    proof {
        let z: int = x * x;
        lemma_red_mul(z, x as int);
        lemma_red_mul(z, z);
        lemma_red_mul(z * z, z * x);
    }
    fmul(x4, x3)
}

fn mat4(s: &[u64; 8], at: usize) -> (r: [u128; 4])
    requires
        at <= 4,
    ensures
        forall|i: int| 0 <= i < 4 ==> #[trigger] r@[i] == mat4z(ints(s@), at as int, i),
        forall|i: int| 0 <= i < 4 ==> #[trigger] r@[i] < 0x8_0000_0000_0000_0000,
{
    let x0: u128 = s[at] as u128;
    let x1: u128 = s[at + 1] as u128;
    let x2: u128 = s[at + 2] as u128;
    let x3: u128 = s[at + 3] as u128;
    [
        2 * x0 + 3 * x1 + x2 + x3,
        x0 + 2 * x1 + 3 * x2 + x3,
        x0 + x1 + 2 * x2 + 3 * x3,
        3 * x0 + x1 + x2 + 2 * x3,
    ]
}

/// The residue of a wide integer.
fn reduce(x: u128) -> (r: u64)
    ensures
        r == red(x as int),
        r < P,
{
    (x % (P as u128)) as u64
}

/// The external linear layer.
pub fn ext_linear(s: [u64; 8]) -> (r: [u64; 8])
    ensures
        ints(r@) == red_seq(ext_linear_z(ints(s@))),
{
    let lo: [u128; 4] = mat4(&s, 0);
    let hi: [u128; 4] = mat4(&s, 4);
    let r: [u64; 8] = [
        reduce(2 * lo[0] + hi[0]),
        reduce(2 * lo[1] + hi[1]),
        reduce(2 * lo[2] + hi[2]),
        reduce(2 * lo[3] + hi[3]),
        reduce(lo[0] + 2 * hi[0]),
        reduce(lo[1] + 2 * hi[1]),
        reduce(lo[2] + 2 * hi[2]),
        reduce(lo[3] + 2 * hi[3]),
    ];
    proof {
        let z = ints(s@);
        assert forall|i: int| 0 <= i < 8 implies #[trigger] ints(r@)[i] == red(ext_lane(z, i)) by {
            assert(lo@[0] == mat4z(z, 0, 0) && lo@[1] == mat4z(z, 0, 1) && lo@[2] == mat4z(z, 0, 2)
                && lo@[3] == mat4z(z, 0, 3));
            assert(hi@[0] == mat4z(z, 4, 0) && hi@[1] == mat4z(z, 4, 1) && hi@[2] == mat4z(z, 4, 2)
                && hi@[3] == mat4z(z, 4, 3));
        }
        assert(ints(r@) =~= red_seq(ext_linear_z(z)));
    }
    r
}

/// The internal linear layer.
pub fn int_linear(s: [u64; 8]) -> (r: [u64; 8])
    ensures
        ints(r@) == red_seq(int_linear_z(ints(s@))),
{
    let sum: u128 = s[0] as u128 + s[1] as u128 + s[2] as u128 + s[3] as u128 + s[4] as u128
        + s[5] as u128 + s[6] as u128 + s[7] as u128;
    let r: [u64; 8] = [
        reduce(sum + 0xFFFF_FFFE_FFFF_FFFF * (s[0] as u128)),
        reduce(sum + s[1] as u128),
        reduce(sum + 2 * (s[2] as u128)),
        reduce(sum + 0x7FFF_FFFF_8000_0001 * (s[3] as u128)),
        reduce(sum + 3 * (s[4] as u128)),
        reduce(sum + 0x7FFF_FFFF_8000_0000 * (s[5] as u128)),
        reduce(sum + 0xFFFF_FFFE_FFFF_FFFE * (s[6] as u128)),
        reduce(sum + 0xFFFF_FFFE_FFFF_FFFD * (s[7] as u128)),
    ];
    assert(ints(r@) =~= red_seq(int_linear_z(ints(s@))));
    r
}

/// The linear layers see only residues.
proof fn lemma_ext_linear_red(s: Seq<int>)
    requires
        s.len() == 8,
    ensures
        red_seq(ext_linear_z(red_seq(s))) == red_seq(ext_linear_z(s)),
{
    let t = red_seq(s);
    assert forall|i: int| 0 <= i < 8 implies red(ext_lane(t, i)) == red(ext_lane(s, i)) by {
        assert forall|j: int| 0 <= j < 8 implies #[trigger] t[j] == s[j] - (P as int) * (s[j] / (P as int)) by {
            vstd::arithmetic::div_mod::lemma_fundamental_div_mod(s[j], P as int);
        }
        let q = Seq::new(8, |j: int| s[j] / (P as int));
        assert(ext_lane(t, i) == (P as int) * (-ext_lane(q, i)) + ext_lane(s, i)) by {
            assert(forall|j: int| 0 <= j < 8 ==> #[trigger] q[j] == s[j] / (P as int));
        }
        vstd::arithmetic::div_mod::lemma_mod_multiples_vanish(-ext_lane(q, i), ext_lane(s, i), P as int);
    }
    assert(red_seq(ext_linear_z(t)) =~= red_seq(ext_linear_z(s)));
}

proof fn lemma_int_linear_red(s: Seq<int>)
    requires
        s.len() == 8,
    ensures
        red_seq(int_linear_z(red_seq(s))) == red_seq(int_linear_z(s)),
{
    let t = red_seq(s);
    let q = Seq::new(8, |j: int| s[j] / (P as int));
    assert forall|i: int| 0 <= i < 8 implies red(#[trigger] int_linear_z(t)[i]) == red(int_linear_z(s)[i]) by {
        assert forall|j: int| 0 <= j < 8 implies #[trigger] t[j] == s[j] - (P as int) * q[j] by {
            vstd::arithmetic::div_mod::lemma_fundamental_div_mod(s[j], P as int);
        }
        let d = diag(i);
        assert(d * t[i] == d * s[i] - (P as int) * (d * q[i])) by (nonlinear_arith)
            requires
                t[i] == s[i] - (P as int) * q[i],
        ;
        assert(int_linear_z(t)[i] == (P as int) * (-(sum8(q) + d * q[i])) + int_linear_z(s)[i]);
        vstd::arithmetic::div_mod::lemma_mod_multiples_vanish(
            -(sum8(q) + d * q[i]),
            int_linear_z(s)[i],
            P as int,
        );
    }
    assert(red_seq(int_linear_z(t)) =~= red_seq(int_linear_z(s)));
}

/// A full round.
fn full_round(s: [u64; 8], rc: &[u64; 8]) -> (r: [u64; 8])
    ensures
        ints(r@) == red_seq(full_round_z(ints(s@), ints(rc@))),
{
    let mut t: [u64; 8] = [0; 8];
    for i in 0..8
        invariant
            forall|j: int| 0 <= j < i ==> #[trigger] t@[j] == red(pow7z(s@[j] + rc@[j])),
    {
        let x: u64 = fadd(s[i], rc[i]);
        t[i] = pow7(x);
        proof {
            lemma_pow7_red(s@[i as int] + rc@[i as int]);
        }
    }
    proof {
        let z = Seq::new(8, |i: int| pow7z(ints(s@)[i] + ints(rc@)[i]));
        assert(ints(t@) =~= red_seq(z));
        lemma_ext_linear_red(z);
    }
    ext_linear(t)
}

proof fn lemma_pow7_red(x: int)
    ensures
        red(pow7z(red(x))) == red(pow7z(x)),
{
    let y = red(x);
    lemma_red_red(x);
    lemma_red_mul(x, x);
    lemma_red_mul(x * x, x);
    lemma_red_mul(x * x, x * x);
    lemma_red_mul((x * x) * (x * x), (x * x) * x);
    lemma_red_mul(y * y, y);
    lemma_red_mul(y * y, y * y);
    lemma_red_mul((y * y) * (y * y), (y * y) * y);
    lemma_red_mul(x * x, y);
}

/// A partial round.
fn partial_round(s: [u64; 8], rc: u64) -> (r: [u64; 8])
    ensures
        ints(r@) == red_seq(partial_round_z(ints(s@), rc as int)),
{
    let mut t: [u64; 8] = s;
    let x: u64 = fadd(s[0], rc);
    t[0] = pow7(x);
    proof {
        let z = Seq::new(8, |i: int| if i == 0 { pow7z(ints(s@)[0] + rc as int) } else { ints(s@)[i] });
        lemma_pow7_red(s@[0] + rc);
        assert forall|i: int| 0 <= i < 8 implies #[trigger] red_seq(ints(t@))[i] == red_seq(z)[i] by {
            lemma_red_red(pow7z(s@[0] + rc));
        }
        assert(red_seq(ints(t@)) =~= red_seq(z));
        lemma_int_linear_red(z);
        lemma_int_linear_red(ints(t@));
    }
    int_linear(t)
}

/// The round constants that the step from row `k` adds.
fn round_constants(k: usize) -> (r: [u64; 8])
    ensures
        ints(r@) == round_rcs(k as int),
        forall|i: int| 0 <= i < 8 ==> #[trigger] r@[i] < P,
{
    let mut r: [u64; 8] = [0; 8];
    if 5 <= k && k <= 26 {
        r[0] = internal_constant(k - 5);
    } else if (1 <= k && k <= 4) || (27 <= k && k <= 30) {
        for i in 0..8
            invariant
                1 <= k <= 4 || 27 <= k <= 30,
                forall|j: int| 0 <= j < i ==> #[trigger] r@[j] == round_rc(k as int, j),
                forall|j: int| 0 <= j < 8 ==> #[trigger] r@[j] < P,
        {
            r[i] = if k <= 4 {
                external_initial_constant(k - 1, i)
            } else {
                external_final_constant(k - 27, i)
            };
        }
    }
    assert(ints(r@) =~= round_rcs(k as int));
    r
}

/// The rows of the block that permutes `input`.
pub fn native_steps(input: [u64; 8]) -> (r: Vec<[u64; 8]>)
    ensures
        r.len() == BLOCK,
        forall|k: int| 0 <= k < BLOCK ==> ints((#[trigger] r@[k])@) == perm_row(ints(input@), k as nat),
{
    reveal(perm_row);
    reveal(step_z);
    let mut r: Vec<[u64; 8]> = Vec::new();
    let mut s: [u64; 8] = input;
    r.push(s);
    for k in 0..31
        invariant
            r.len() == k + 1,
            ints(s@) == perm_row(ints(input@), k as nat),
            forall|j: int| 0 <= j <= k ==> ints((#[trigger] r@[j])@) == perm_row(ints(input@), j as nat),
    {
        reveal(perm_row);
        reveal(step_z);
        let rc: [u64; 8] = round_constants(k);
        assert(ints(rc@)[0] == rc@[0] && round_rcs(k as int)[0] == round_rc(k as int, 0));
        if k == 0 {
            s = ext_linear(s);
        } else if k <= 4 || 27 <= k {
            s = full_round(s, &rc);
        } else {
            s = partial_round(s, rc[0]);
        }
        r.push(s);
        assert(ints(s@) == perm_row(ints(input@), (k + 1) as nat));
    }
    r
}

/// Entry `k` of periodic column `j`: three selectors (initial layer, full round, partial round)
/// and eight round constants.
pub open spec fn round_col(j: int, k: int) -> int {
    if j == 0 {
        if step_kind(k) is Init {
            1
        } else {
            0
        }
    } else if j == 1 {
        if step_kind(k) is Full {
            1
        } else {
            0
        }
    } else if j == 2 {
        if step_kind(k) is Partial {
            1
        } else {
            0
        }
    } else {
        round_rc(k, j - 3)
    }
}

/// The periodic columns of a block.
pub fn periodic_table() -> (r: Vec<Vec<u64>>)
    ensures
        r.len() == ROUND_COLS,
        forall|j: int| 0 <= j < ROUND_COLS ==> (#[trigger] r@[j])@.len() == BLOCK,
        forall|j: int, k: int|
            0 <= j < ROUND_COLS && 0 <= k < BLOCK ==> #[trigger] r@[j]@[k] == round_col(j, k),
        forall|j: int, k: int|
            0 <= j < ROUND_COLS && 0 <= k < BLOCK ==> #[trigger] r@[j]@[k] < P,
{
    let mut r: Vec<Vec<u64>> = Vec::new();
    for j in 0..ROUND_COLS
        invariant
            r.len() == j,
            forall|i: int| 0 <= i < j ==> (#[trigger] r@[i])@.len() == BLOCK,
            forall|i: int, k: int|
                0 <= i < j && 0 <= k < BLOCK ==> #[trigger] r@[i]@[k] == round_col(i, k),
            forall|i: int, k: int|
                0 <= i < j && 0 <= k < BLOCK ==> #[trigger] r@[i]@[k] < P,
    {
        let mut col: Vec<u64> = Vec::new();
        for k in 0..BLOCK
            invariant
                j < ROUND_COLS,
                col.len() == k,
                forall|i: int| 0 <= i < k ==> #[trigger] col@[i] == round_col(j as int, i),
                forall|i: int| 0 <= i < k ==> #[trigger] col@[i] < P,
        {
            let rc: [u64; 8] = round_constants(k);
            let full: bool = (1 <= k && k <= 4) || (27 <= k && k <= 30);
            let v: u64 = if j == 0 {
                if k == 0 {
                    1
                } else {
                    0
                }
            } else if j == 1 {
                if full {
                    1
                } else {
                    0
                }
            } else if j == 2 {
                if 5 <= k && k <= 26 {
                    1
                } else {
                    0
                }
            } else {
                rc[j - 3]
            };
            assert(j >= 3 ==> ints(rc@)[j - 3] == rc@[j - 3] && round_rcs(k as int)[j - 3]
                == round_rc(k as int, j - 3));
            col.push(v);
        }
        r.push(col);
    }
    r
}

/// Eight consecutive cells of a row.
pub open spec fn lanes(row: Seq<int>, off: int) -> Seq<int> {
    Seq::new(8, |i: int| row[off + i])
}

/// The eight polynomials that tie the lanes `n` of a row to the lanes `c` of the row before it,
/// under the periodic columns `p`.
#[verifier::opaque]
pub open spec fn round_polys(c: Seq<int>, n: Seq<int>, p: Seq<int>) -> Seq<int> {
    Seq::new(
        8,
        |i: int|
            p[0] * (n[i] - ext_linear_z(c)[i]) + p[1] * (n[i] - full_round_z(c, lanes(p, 3))[i])
                + p[2] * (n[i] - partial_round_z(c, p[3])[i]),
    )
}

fn pow7_expr(x: &Expr) -> (r: Expr)
    ensures
        forall|env: Env| #[trigger] r.val(env) == pow7z(x.val(env)),
{
    let x2: Expr = x.times(x);
    x2.times(&x2).times(&x2.times(x))
}

fn lin4(c0: u64, c1: u64, c2: u64, c3: u64, x: &Vec<Expr>, at: usize) -> (r: Expr)
    requires
        at + 4 <= x.len(),
    ensures
        forall|env: Env|
            #[trigger] r.val(env) == c0 * x@[at as int].val(env) + c1 * x@[at + 1].val(env)
                + c2 * x@[at + 2].val(env) + c3 * x@[at + 3].val(env),
{
    cst(c0).times(&x[at]).plus(&cst(c1).times(&x[at + 1])).plus(
        &cst(c2).times(&x[at + 2]),
    ).plus(&cst(c3).times(&x[at + 3]))
}

fn mat4_expr(x: &Vec<Expr>, at: usize, i: usize) -> (r: Expr)
    requires
        x.len() == 8,
        at <= 4,
        i < 4,
    ensures
        forall|env: Env|
            #[trigger] r.val(env) == mat4z(vals(x@, env), at as int, i as int),
{
    if i == 0 {
        lin4(2, 3, 1, 1, x, at)
    } else if i == 1 {
        lin4(1, 2, 3, 1, x, at)
    } else if i == 2 {
        lin4(1, 1, 2, 3, x, at)
    } else {
        lin4(3, 1, 1, 2, x, at)
    }
}

/// The external linear layer on polynomials.
pub fn ext_linear_expr(x: &Vec<Expr>) -> (r: Vec<Expr>)
    requires
        x.len() == 8,
    ensures
        r.len() == 8,
        forall|env: Env| #[trigger] vals(r@, env) == ext_linear_z(vals(x@, env)),
{
    let mut r: Vec<Expr> = Vec::new();
    for i in 0..8
        invariant
            x.len() == 8,
            r.len() == i,
            forall|j: int, env: Env|
                0 <= j < i ==> (#[trigger] r@[j].val(env)) == ext_lane(vals(x@, env), j),
    {
        let two: Expr = cst(2);
        if i < 4 {
            let m: Expr = mat4_expr(x, 0, i);
            let n: Expr = mat4_expr(x, 4, i);
            r.push(two.times(&m).plus(&n));
        } else {
            let m: Expr = mat4_expr(x, 0, i - 4);
            let n: Expr = mat4_expr(x, 4, i - 4);
            r.push(m.plus(&two.times(&n)));
        }
    }
    proof {
        assert forall|env: Env| #[trigger] vals(r@, env) == ext_linear_z(vals(x@, env)) by {
            assert(vals(r@, env) =~= ext_linear_z(vals(x@, env)));
        }
    }
    r
}

/// The internal linear layer on polynomials.
pub fn int_linear_expr(x: &Vec<Expr>) -> (r: Vec<Expr>)
    requires
        x.len() == 8,
    ensures
        r.len() == 8,
        forall|env: Env| #[trigger] vals(r@, env) == int_linear_z(vals(x@, env)),
{
    let d: [u64; 8] = [
        0xFFFF_FFFE_FFFF_FFFF,
        1,
        2,
        0x7FFF_FFFF_8000_0001,
        3,
        0x7FFF_FFFF_8000_0000,
        0xFFFF_FFFE_FFFF_FFFE,
        0xFFFF_FFFE_FFFF_FFFD,
    ];
    let sum: Expr = x[0].plus(&x[1]).plus(&x[2]).plus(&x[3]).plus(&x[4]).plus(&x[5]).plus(
        &x[6],
    ).plus(&x[7]);
    assert(forall|i: int| 0 <= i < 8 ==> d@[i] == #[trigger] diag(i));
    assert forall|env: Env| #[trigger] sum.val(env) == sum8(vals(x@, env)) by {}
    let mut r: Vec<Expr> = Vec::new();
    for i in 0..8
        invariant
            x.len() == 8,
            r.len() == i,
            forall|j: int| 0 <= j < 8 ==> d@[j] == #[trigger] diag(j),
            forall|env: Env| #[trigger] sum.val(env) == sum8(vals(x@, env)),
            forall|j: int, env: Env|
                0 <= j < i ==> (#[trigger] r@[j].val(env)) == sum8(vals(x@, env)) + diag(j)
                    * x@[j].val(env),
    {
        assert(d@[i as int] == diag(i as int));
        r.push(sum.plus(&cst(d[i]).times(&x[i])));
    }
    proof {
        assert forall|env: Env| #[trigger] vals(r@, env) == int_linear_z(vals(x@, env)) by {
            assert(vals(r@, env) =~= int_linear_z(vals(x@, env)));
        }
    }
    r
}

fn full_round_expr(x: &Vec<Expr>) -> (r: Vec<Expr>)
    requires
        x.len() == 8,
    ensures
        r.len() == 8,
        forall|env: Env|
            #[trigger] vals(r@, env) == full_round_z(vals(x@, env), lanes(env.per, 3)),
{
    let mut t: Vec<Expr> = Vec::new();
    for i in 0..8
        invariant
            x.len() == 8,
            t.len() == i,
            forall|j: int, env: Env|
                0 <= j < i ==> (#[trigger] t@[j].val(env)) == pow7z(
                    x@[j].val(env) + env.per[3 + j],
                ),
    {
        let y: Expr = x[i].plus(&per(3 + i));
        t.push(pow7_expr(&y));
    }
    let r: Vec<Expr> = ext_linear_expr(&t);
    proof {
        assert forall|env: Env|
            #[trigger] vals(r@, env) == full_round_z(vals(x@, env), lanes(env.per, 3)) by {
            let s = vals(x@, env);
            let rc = lanes(env.per, 3);
            assert(vals(t@, env) =~= Seq::new(8, |i: int| pow7z(s[i] + rc[i])));
        }
    }
    r
}

fn partial_round_expr(x: &Vec<Expr>) -> (r: Vec<Expr>)
    requires
        x.len() == 8,
    ensures
        r.len() == 8,
        forall|env: Env|
            #[trigger] vals(r@, env) == partial_round_z(vals(x@, env), env.per[3]),
{
    let mut t: Vec<Expr> = Vec::new();
    for i in 0..8
        invariant
            x.len() == 8,
            t.len() == i,
            forall|j: int, env: Env|
                0 <= j < i ==> (#[trigger] t@[j].val(env)) == (if j == 0 {
                    pow7z(x@[0].val(env) + env.per[3])
                } else {
                    x@[j].val(env)
                }),
    {
        if i == 0 {
            let y: Expr = x[0].plus(&per(3));
            t.push(pow7_expr(&y));
        } else {
            t.push(x[i].dup());
        }
    }
    let r: Vec<Expr> = int_linear_expr(&t);
    proof {
        assert forall|env: Env|
            #[trigger] vals(r@, env) == partial_round_z(vals(x@, env), env.per[3]) by {
            let s = vals(x@, env);
            assert(vals(t@, env) =~= Seq::new(
                8,
                |i: int|
                    if i == 0 {
                        pow7z(s[0] + env.per[3])
                    } else {
                        s[i]
                    },
            ));
        }
    }
    r
}

/// The round polynomials of the eight cells from column `off` on.
pub fn round_exprs(off: usize) -> (r: Vec<Expr>)
    requires
        off + 8 <= usize::MAX,
    ensures
        r.len() == 8,
        forall|env: Env|
            #[trigger] vals(r@, env) == round_polys(
                lanes(env.cur, off as int),
                lanes(env.nxt, off as int),
                env.per,
            ),
{
    reveal(round_polys);
    let c: Vec<Expr> = cur_range(off, 8);
    let n: Vec<Expr> = nxt_range(off, 8);
    let init: Vec<Expr> = ext_linear_expr(&c);
    let full: Vec<Expr> = full_round_expr(&c);
    let part: Vec<Expr> = partial_round_expr(&c);
    let (p0, p1, p2) = (per(0), per(1), per(2));
    let mut r: Vec<Expr> = Vec::new();
    for i in 0..8
        invariant
            c.len() == 8,
            n.len() == 8,
            init.len() == 8,
            full.len() == 8,
            part.len() == 8,
            r.len() == i,
            forall|env: Env| #[trigger] p0.val(env) == env.per[0],
            forall|env: Env| #[trigger] p1.val(env) == env.per[1],
            forall|env: Env| #[trigger] p2.val(env) == env.per[2],
            forall|j: int, env: Env|
                0 <= j < i ==> (#[trigger] r@[j].val(env)) == env.per[0] * (n@[j].val(env)
                    - init@[j].val(env)) + env.per[1] * (n@[j].val(env) - full@[j].val(env))
                    + env.per[2] * (n@[j].val(env) - part@[j].val(env)),
    {
        let a: Expr = p0.times(&n[i].minus(&init[i]));
        let b: Expr = p1.times(&n[i].minus(&full[i]));
        let d: Expr = p2.times(&n[i].minus(&part[i]));
        r.push(a.plus(&b).plus(&d));
    }
    proof {
        assert forall|env: Env|
            #[trigger] vals(r@, env) == round_polys(
                lanes(env.cur, off as int),
                lanes(env.nxt, off as int),
                env.per,
            ) by {
            let cc = lanes(env.cur, off as int);
            assert(vals(c@, env) =~= cc);
            assert forall|j: int| 0 <= j < 8 implies #[trigger] vals(r@, env)[j] == round_polys(
                cc,
                lanes(env.nxt, off as int),
                env.per,
            )[j] by {
                assert(vals(init@, env)[j] == init@[j].val(env));
                assert(vals(full@, env)[j] == full@[j].val(env));
                assert(vals(part@, env)[j] == part@[j].val(env));
            }
            assert(vals(r@, env) =~= round_polys(cc, lanes(env.nxt, off as int), env.per));
        }
    }
    r
}

/// Whether the periodic values `p` are those of row `k` of a block.
pub open spec fn round_row(p: Seq<int>, k: int) -> bool {
    forall|j: int| 0 <= j < ROUND_COLS ==> #[trigger] p[j] == round_col(j, k)
}

/// At each row of a block but the last, the round polynomials vanish exactly when the next lanes
/// follow from the current ones by the step of that row.
pub proof fn lemma_round(c: Seq<int>, n: Seq<int>, p: Seq<int>, k: int)
    requires
        round_row(p, k),
        0 <= k < 31,
        c.len() == 8,
    ensures
        round_polys(c, n, p).len() == 8,
        forall|i: int|
            0 <= i < 8 ==> (red(#[trigger] round_polys(c, n, p)[i]) == 0 <==> cong(
                n[i],
                step_z(k, c)[i],
            )),
{
    reveal(round_polys);
    reveal(step_z);
    assert(p[0] == round_col(0, k));
    assert(p[1] == round_col(1, k));
    assert(p[2] == round_col(2, k));
    assert(p[3] == round_col(3, k));
    assert(lanes(p, 3) =~= round_rcs(k)) by {
        assert forall|i: int| 0 <= i < 8 implies lanes(p, 3)[i] == round_rcs(k)[i] by {
            assert(p[3 + i] == round_col(3 + i, k));
        }
    }
    assert forall|i: int| 0 <= i < 8 implies (red(#[trigger] round_polys(c, n, p)[i]) == 0 <==> cong(
        n[i],
        step_z(k, c)[i],
    )) by {
        lemma_cong_diff(n[i], step_z(k, c)[i]);
        assert(round_polys(c, n, p)[i] == n[i] - step_z(k, c)[i]);
    }
}

/// The round polynomials say nothing of the row after a block.
pub proof fn lemma_round_idle(c: Seq<int>, n: Seq<int>, p: Seq<int>)
    requires
        round_row(p, 31),
    ensures
        round_polys(c, n, p).len() == 8,
        forall|i: int| 0 <= i < 8 ==> #[trigger] round_polys(c, n, p)[i] == 0,
{
    reveal(round_polys);
    assert(p[0] == round_col(0, 31));
    assert(p[1] == round_col(1, 31));
    assert(p[2] == round_col(2, 31));
}

/// Rows that follow from one another by the steps of a block are the rows of the permutation.
pub proof fn lemma_block(t: Seq<Seq<int>>, off: int, base: int, k: nat)
    requires
        k <= 31,
        forall|j: int|
            #![trigger t[base + j]]
            1 <= j <= 31 ==> lanes(t[base + j], off) == red_seq(
                step_z(j - 1, lanes(t[base + j - 1], off)),
            ),
    ensures
        lanes(t[base + k], off) == perm_row(lanes(t[base], off), k),
    decreases k,
{
    reveal(perm_row);
    if k > 0 {
        lemma_block(t, off, base, (k - 1) as nat);
        assert(lanes(t[base + k], off) == red_seq(step_z(k - 1, lanes(t[base + k - 1], off))));
    } else {
        assert(t[base + 0] == t[base]);
    }
}

/// Every row of a block but its input is canonical.
pub proof fn lemma_perm_row_bound(input: Seq<int>, k: nat)
    requires
        input.len() == 8,
        k <= 31,
    ensures
        perm_row(input, k).len() == 8,
        k > 0 ==> forall|i: int| 0 <= i < 8 ==> 0 <= #[trigger] perm_row(input, k)[i] < P,
    decreases k,
{
    reveal(perm_row);
    reveal(step_z);
    if k > 0 {
        lemma_perm_row_bound(input, (k - 1) as nat);
    }
}

/// Each row of a block follows from the one before it.
pub proof fn lemma_perm_step(input: Seq<int>, k: nat)
    requires
        input.len() == 8,
        k < 31,
    ensures
        perm_row(input, k + 1) == red_seq(step_z(k as int, perm_row(input, k))),
        perm_row(input, 0) == input,
        step_z(k as int, perm_row(input, k)).len() == 8,
{
    reveal(perm_row);
    lemma_perm_row_bound(input, k + 1);
}

/// Inside a block the round polynomials vanish on the rows of the permutation.
pub proof fn lemma_rounds_vanish(input: Seq<int>, p: Seq<int>, k: nat)
    requires
        input.len() == 8,
        k < 31,
        round_row(p, k as int),
    ensures
        crate::expr::vanish(round_polys(perm_row(input, k), perm_row(input, k + 1), p)),
{
    let (c, n) = (perm_row(input, k), perm_row(input, k + 1));
    lemma_perm_step(input, k);
    lemma_perm_row_bound(input, k);
    lemma_round(c, n, p, k as int);
    assert forall|i: int| 0 <= i < 8 implies red(#[trigger] round_polys(c, n, p)[i]) == 0 by {
        lemma_red_red(step_z(k as int, c)[i]);
    }
}

} // verus!
