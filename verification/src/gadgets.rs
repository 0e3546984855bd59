//! Groups of constraints that several constraint systems share: bits, the evaluation point of a
//! query, its reduced opening, the fold chain, canonical bit decompositions, Merkle links and the
//! duplex sponge.
use crate::expr::{bit_poly, cst, cur, cur_ext, Env, Expr, ExtExpr, nxt, pair, per, pis, vals};
use crate::field::{
    exp_power_of_2, pow2k, two_adic_gen, two_adic_generator, zadd, zmul, zscale, zsub, HALF,
};
use vstd::arithmetic::power2::pow2;
use vstd::prelude::*;

verus! {

/// Vanishes on bits.
pub open spec fn bit_z(x: int) -> int {
    x * (1 - x)
}

/// One polynomial per cell, each vanishing on bits.
pub open spec fn bits_z(row: Seq<int>, from: int, n: int) -> Seq<int> {
    Seq::new(n as nat, |i: int| bit_z(row[from + i]))
}

pub fn bit_exprs(from: usize, n: usize) -> (r: Vec<Expr>)
    requires
        from + n <= usize::MAX,
    ensures
        r.len() == n,
        forall|env: Env| #[trigger] vals(r@, env) == bits_z(env.cur, from as int, n as int),
{
    let mut r: Vec<Expr> = Vec::new();
    for i in 0..n
        invariant
            from + n <= usize::MAX,
            r.len() == i,
            forall|j: int, env: Env|
                0 <= j < i ==> (#[trigger] r@[j].val(env)) == bit_z(env.cur[from + j]),
    {
        r.push(bit_poly(&cur(from + i)));
    }
    proof {
        assert forall|env: Env| #[trigger] vals(r@, env) == bits_z(env.cur, from as int, n as int) by {
            assert(vals(r@, env) =~= bits_z(env.cur, from as int, n as int));
        }
    }
    r
}

/// The factor that bit `i` of an index contributes to the evaluation point over the subgroup of
/// order `2^n`: `g^(2^(n-1-i))`.
pub open spec fn deep_factor(n: int, i: int) -> int {
    pow2k(two_adic_gen(n), (n - 1 - i) as nat)
}

/// Step `i` of the product chain over the bits of an index.
pub open spec fn deep_z(row: Seq<int>, bits: int, acc: int, n: int, i: int) -> int {
    let before = if i == 0 {
        1
    } else {
        row[acc + i - 1]
    };
    row[acc + i] - before * (1 + row[bits + i] * (deep_factor(n, i) - 1))
}

/// The product chain over the bits of an index.
pub open spec fn deep_polys(row: Seq<int>, bits: int, acc: int, n: int) -> Seq<int> {
    Seq::new(n as nat, |i: int| deep_z(row, bits, acc, n, i))
}

pub fn deep_exprs(bits: usize, acc: usize, n: usize) -> (r: Vec<Expr>)
    requires
        n <= 32,
        bits + n <= usize::MAX,
        acc + n <= usize::MAX,
    ensures
        r.len() == n,
        forall|env: Env|
            #[trigger] vals(r@, env) == deep_polys(env.cur, bits as int, acc as int, n as int),
{
    let g: u64 = two_adic_generator(n);
    let one: Expr = cst(1);
    let mut r: Vec<Expr> = Vec::new();
    for i in 0..n
        invariant
            bits + n <= usize::MAX,
            acc + n <= usize::MAX,
            g == two_adic_gen(n as int),
            forall|env: Env| #[trigger] one.val(env) == 1,
            r.len() == i,
            forall|j: int, env: Env|
                0 <= j < i ==> (#[trigger] r@[j].val(env)) == deep_z(
                    env.cur,
                    bits as int,
                    acc as int,
                    n as int,
                    j,
                ),
    {
        let c: u64 = exp_power_of_2(g, n - 1 - i);
        let before: Expr = if i == 0 {
            one.dup()
        } else {
            cur(acc + i - 1)
        };
        let factor: Expr = one.plus(&cur(bits + i).times(&cst(c).minus(&one)));
        r.push(cur(acc + i).minus(&before.times(&factor)));
    }
    proof {
        assert forall|env: Env| #[trigger]
            vals(r@, env) == deep_polys(env.cur, bits as int, acc as int, n as int) by {
            assert(vals(r@, env) =~= deep_polys(env.cur, bits as int, acc as int, n as int));
        }
    }
    r
}

/// The columns of one term of a reduced opening: the opening point, the claimed value at it, the
/// opened value at the query point, the inverse of the difference of the points, and the power of
/// the combination challenge. All but the opened value are pairs.
#[derive(Clone, Copy, Debug)]
pub struct TermAt {
    pub z: usize,
    pub pz: usize,
    pub px: usize,
    pub inv: usize,
    pub apow: usize,
}

/// Every column index leaves room for a second coefficient.
pub open spec fn terms_fit(cols: Seq<TermAt>) -> bool {
    forall|k: int|
        #![trigger cols[k]]
        0 <= k < cols.len() ==> cols[k].z < usize::MAX && cols[k].pz < usize::MAX && cols[k].inv
            < usize::MAX && cols[k].apow < usize::MAX
}

pub open spec fn component(x: (int, int), i: int) -> int {
    if i == 0 {
        x.0
    } else {
        x.1
    }
}

/// How far the power of the challenge in term `k` is from the one its predecessor calls for.
pub open spec fn apow_z(row: Seq<int>, alpha: int, cols: Seq<TermAt>, k: int) -> (int, int) {
    let due = if k == 0 {
        (1int, 0int)
    } else {
        zmul(pair(row, cols[k - 1].apow as int), pair(row, alpha))
    };
    zsub(pair(row, cols[k].apow as int), due)
}

/// The chain of powers of the combination challenge.
pub open spec fn apow_polys(row: Seq<int>, alpha: int, cols: Seq<TermAt>) -> Seq<int> {
    Seq::new(2 * cols.len(), |j: int| component(apow_z(row, alpha, cols, j / 2), j % 2))
}

pub fn apow_exprs(alpha: usize, cols: &Vec<TermAt>) -> (r: Vec<Expr>)
    requires
        alpha < usize::MAX,
        terms_fit(cols@),
    ensures
        r.len() == 2 * cols.len(),
        forall|env: Env|
            #[trigger] vals(r@, env) == apow_polys(env.cur, alpha as int, cols@),
{
    let mut r: Vec<Expr> = Vec::new();
    let n: usize = cols.len();
    for k in 0..n
        invariant
            n == cols.len(),
            alpha < usize::MAX,
            terms_fit(cols@),
            r.len() == 2 * k,
            forall|j: int, env: Env|
                0 <= j < 2 * k ==> (#[trigger] r@[j].val(env)) == component(
                    apow_z(env.cur, alpha as int, cols@, j / 2),
                    j % 2,
                ),
    {
        let due: ExtExpr = if k == 0 {
            ExtExpr { c0: cst(1), c1: cst(0) }
        } else {
            cur_ext(cols[k - 1].apow).times(&cur_ext(alpha))
        };
        let d: ExtExpr = cur_ext(cols[k].apow).minus(&due);
        assert forall|env: Env| #[trigger] d.val(env) == apow_z(env.cur, alpha as int, cols@, k as int) by {
            if k == 0 {
                assert(due.val(env) == (1int, 0int));
            }
        }
        assert forall|env: Env| #[trigger] d.c0.val(env) == apow_z(env.cur, alpha as int, cols@, k as int).0 by {
            assert(d.val(env) == apow_z(env.cur, alpha as int, cols@, k as int));
        }
        assert forall|env: Env| #[trigger] d.c1.val(env) == apow_z(env.cur, alpha as int, cols@, k as int).1 by {
            assert(d.val(env) == apow_z(env.cur, alpha as int, cols@, k as int));
        }
        r.push(d.c0);
        r.push(d.c1);
    }
    proof {
        assert forall|env: Env| #[trigger]
            vals(r@, env) == apow_polys(env.cur, alpha as int, cols@) by {
            assert(vals(r@, env) =~= apow_polys(env.cur, alpha as int, cols@));
        }
    }
    r
}

/// How far the product of the inverse in term `k` with `z - x` is from one.
pub open spec fn inv_z(row: Seq<int>, x: int, cols: Seq<TermAt>, k: int) -> (int, int) {
    let z = pair(row, cols[k].z as int);
    zsub(zmul(pair(row, cols[k].inv as int), (z.0 - x, z.1)), (1int, 0int))
}

/// The checks of the inverses.
pub open spec fn inv_polys(row: Seq<int>, x: int, cols: Seq<TermAt>) -> Seq<int> {
    Seq::new(2 * cols.len(), |j: int| component(inv_z(row, x, cols, j / 2), j % 2))
}

pub fn inv_exprs(x: &Expr, cols: &Vec<TermAt>) -> (r: Vec<Expr>)
    requires
        terms_fit(cols@),
    ensures
        r.len() == 2 * cols.len(),
        forall|env: Env| #[trigger] vals(r@, env) == inv_polys(env.cur, x.val(env), cols@),
{
    let mut r: Vec<Expr> = Vec::new();
    let n: usize = cols.len();
    for k in 0..n
        invariant
            n == cols.len(),
            terms_fit(cols@),
            r.len() == 2 * k,
            forall|j: int, env: Env|
                0 <= j < 2 * k ==> (#[trigger] r@[j].val(env)) == component(
                    inv_z(env.cur, x.val(env), cols@, j / 2),
                    j % 2,
                ),
    {
        let z: ExtExpr = cur_ext(cols[k].z);
        let zx: ExtExpr = ExtExpr { c0: z.c0.minus(x), c1: z.c1.dup() };
        let one: ExtExpr = ExtExpr { c0: cst(1), c1: cst(0) };
        let d: ExtExpr = cur_ext(cols[k].inv).times(&zx).minus(&one);
        assert forall|env: Env| #[trigger] d.val(env) == inv_z(env.cur, x.val(env), cols@, k as int) by {
            assert(z.val(env) == pair(env.cur, cols@[k as int].z as int));
            assert(zx.val(env) == (z.val(env).0 - x.val(env), z.val(env).1));
            assert(one.val(env) == (1int, 0int));
        }
        assert forall|env: Env| #[trigger] d.c0.val(env) == inv_z(env.cur, x.val(env), cols@, k as int).0 by {
            assert(d.val(env) == inv_z(env.cur, x.val(env), cols@, k as int));
        }
        assert forall|env: Env| #[trigger] d.c1.val(env) == inv_z(env.cur, x.val(env), cols@, k as int).1 by {
            assert(d.val(env) == inv_z(env.cur, x.val(env), cols@, k as int));
        }
        r.push(d.c0);
        r.push(d.c1);
    }
    proof {
        assert forall|env: Env| #[trigger]
            vals(r@, env) == inv_polys(env.cur, x.val(env), cols@) by {
            assert(vals(r@, env) =~= inv_polys(env.cur, x.val(env), cols@));
        }
    }
    r
}

/// Term `k` of the reduced opening: `apow * (pz - px) * inv`.
pub open spec fn ro_term(row: Seq<int>, cols: Seq<TermAt>, k: int) -> (int, int) {
    let pz = pair(row, cols[k].pz as int);
    let d = (pz.0 - row[cols[k].px as int], pz.1);
    zmul(zmul(pair(row, cols[k].apow as int), d), pair(row, cols[k].inv as int))
}

/// The reduced opening: the sum of its first `n` terms.
pub open spec fn ro_z(row: Seq<int>, cols: Seq<TermAt>, n: nat) -> (int, int)
    decreases n,
{
    if n == 0 {
        (0, 0)
    } else {
        zadd(ro_z(row, cols, (n - 1) as nat), ro_term(row, cols, n - 1))
    }
}

pub fn ro_expr(cols: &Vec<TermAt>) -> (r: ExtExpr)
    requires
        terms_fit(cols@),
    ensures
        forall|env: Env| #[trigger] r.val(env) == ro_z(env.cur, cols@, cols@.len()),
{
    let mut r: ExtExpr = ExtExpr { c0: cst(0), c1: cst(0) };
    let n: usize = cols.len();
    for k in 0..n
        invariant
            n == cols.len(),
            terms_fit(cols@),
            forall|env: Env| #[trigger] r.val(env) == ro_z(env.cur, cols@, k as nat),
    {
        let pz: ExtExpr = cur_ext(cols[k].pz);
        let d: ExtExpr = ExtExpr { c0: pz.c0.minus(&cur(cols[k].px)), c1: pz.c1.dup() };
        let t: ExtExpr = cur_ext(cols[k].apow).times(&d).times(&cur_ext(cols[k].inv));
        assert forall|env: Env| #[trigger] t.val(env) == ro_term(env.cur, cols@, k as int) by {
            assert(pz.val(env) == pair(env.cur, cols@[k as int].pz as int));
            assert(d.val(env) == (pz.val(env).0 - env.cur[cols@[k as int].px as int], pz.val(env).1));
        }
        r = r.plus(&t);
    }
    r
}

/// Columns of the fold chain.
pub const F_E: usize = 0;

/// The sibling of the running evaluation.
pub const F_S: usize = 2;

/// The fold challenge.
pub const F_B: usize = 4;

/// The slot of the running evaluation in its group.
pub const F_BIT: usize = 6;

/// The fold point.
pub const F_SPT: usize = 7;

/// The inverse of twice the fold point.
pub const F_I2S: usize = 8;

/// The folded value that a row of the fold chain calls for:
/// `(E + S) / 2 + (1 - 2 bit) (E - S) B / (2 s)`.
pub open spec fn fold_z(row: Seq<int>) -> (int, int) {
    let (e, s) = (pair(row, 0), pair(row, 2));
    let sum = zadd(e, s);
    let prod = zmul(zsub(e, s), pair(row, 4));
    let k = (1 - 2 * row[6]) * row[8];
    zadd(zscale(sum, HALF as int), zscale(prod, k))
}

/// One step of the fold chain: the slot is a bit, the inverse is right, and the next running
/// evaluation is the folded value.
pub open spec fn fold_polys(c: Seq<int>, n: Seq<int>) -> Seq<int> {
    seq![bit_z(c[6]), c[8] * (2 * c[7]) - 1, n[0] - fold_z(c).0, n[1] - fold_z(c).1]
}

pub fn fold_exprs() -> (r: Vec<Expr>)
    ensures
        r.len() == 4,
        forall|env: Env| #[trigger] vals(r@, env) == fold_polys(env.cur, env.nxt),
{
    let e: ExtExpr = cur_ext(F_E);
    let s: ExtExpr = cur_ext(F_S);
    let b: ExtExpr = cur_ext(F_B);
    let bit: Expr = cur(F_BIT);
    let i2s: Expr = cur(F_I2S);
    let one: Expr = cst(1);
    let two: Expr = cst(2);
    let half: Expr = cst(HALF);
    let sum: ExtExpr = e.plus(&s);
    let prod: ExtExpr = e.minus(&s).times(&b);
    let k: Expr = one.minus(&two.times(&bit)).times(&i2s);
    let fold: ExtExpr = ExtExpr {
        c0: sum.c0.times(&half).plus(&prod.c0.times(&k)),
        c1: sum.c1.times(&half).plus(&prod.c1.times(&k)),
    };
    assert forall|env: Env| #[trigger] fold.val(env) == fold_z(env.cur) by {
        assert(e.val(env) == pair(env.cur, 0));
        assert(s.val(env) == pair(env.cur, 2));
        assert(b.val(env) == pair(env.cur, 4));
        assert(sum.val(env) == zadd(e.val(env), s.val(env)));
        assert(prod.val(env) == zmul(zsub(e.val(env), s.val(env)), b.val(env)));
        assert(k.val(env) == (1 - 2 * env.cur[6]) * env.cur[8]);
    }
    let mut r: Vec<Expr> = Vec::new();
    r.push(bit_poly(&bit));
    r.push(i2s.times(&two.times(&cur(F_SPT))).minus(&one));
    r.push(nxt(F_E).minus(&fold.c0));
    r.push(nxt(F_E + 1).minus(&fold.c1));
    proof {
        assert forall|env: Env| #[trigger] vals(r@, env) == fold_polys(env.cur, env.nxt) by {
            assert(fold.val(env) == fold_z(env.cur));
            assert(vals(r@, env) =~= fold_polys(env.cur, env.nxt));
        }
    }
    r
}

/// The number whose bits, the lowest first, are the `n` cells from column `b` on.
pub open spec fn recon_z(row: Seq<int>, b: int, n: nat) -> int
    decreases n,
{
    if n == 0 {
        0
    } else {
        recon_z(row, b, (n - 1) as nat) + row[b + n - 1] * pow2((n - 1) as nat)
    }
}

pub fn pow2_const(i: usize) -> (r: u64)
    requires
        i < 64,
    ensures
        r == pow2(i as nat),
{
    proof {
        vstd::bits::lemma_u64_pow2_no_overflow(i as nat);
        vstd::bits::lemma_u64_shl_is_mul(1, i as u64);
    }
    1u64 << (i as u64)
}

pub fn recon_expr(b: usize, n: usize) -> (r: Expr)
    requires
        n <= 64,
        b + n <= usize::MAX,
    ensures
        forall|env: Env| #[trigger] r.val(env) == recon_z(env.cur, b as int, n as nat),
{
    let mut r: Expr = cst(0);
    for i in 0..n
        invariant
            n <= 64,
            b + n <= usize::MAX,
            forall|env: Env| #[trigger] r.val(env) == recon_z(env.cur, b as int, i as nat),
    {
        let p: u64 = pow2_const(i);
        r = r.plus(&cur(b + i).times(&cst(p)));
    }
    r
}

/// Step `k` of the product chain over the 32 high bits.
pub open spec fn high_z(row: Seq<int>, b: int, q: int, k: int) -> int {
    let before = if k == 0 {
        row[b + 32]
    } else {
        row[q + k - 1]
    };
    row[q + k] - before * row[b + 33 + k]
}

/// The canonical decomposition of the cell at `x` into the 64 bits at `b`: the bits are bits, they
/// make up `x`, and where all 32 high bits are set the 32 low ones are clear, so that the number
/// they make up is less than the field order.
pub open spec fn canon_polys(row: Seq<int>, x: int, b: int, q: int) -> Seq<int> {
    bits_z(row, b, 64) + seq![row[x] - recon_z(row, b, 64)] + Seq::new(
        31,
        |k: int| high_z(row, b, q, k),
    ) + seq![row[q + 30] * recon_z(row, b, 32)]
}

pub fn canon_exprs(x: usize, b: usize, q: usize) -> (r: Vec<Expr>)
    requires
        b + 64 <= usize::MAX,
        q + 31 <= usize::MAX,
    ensures
        r.len() == 97,
        forall|env: Env|
            #[trigger] vals(r@, env) == canon_polys(env.cur, x as int, b as int, q as int),
{
    let mut r: Vec<Expr> = bit_exprs(b, 64);
    let ghost bits = r@;
    let whole: Expr = recon_expr(b, 64);
    r.push(cur(x).minus(&whole));
    for k in 0..31
        invariant
            b + 64 <= usize::MAX,
            q + 31 <= usize::MAX,
            bits.len() == 64,
            r.len() == 65 + k,
            forall|i: int| 0 <= i < 64 ==> #[trigger] r@[i] == bits[i],
            forall|env: Env| (#[trigger] r@[64].val(env)) == env.cur[x as int] - recon_z(env.cur, b as int, 64),
            forall|j: int, env: Env|
                65 <= j < 65 + k ==> (#[trigger] r@[j].val(env)) == high_z(
                    env.cur,
                    b as int,
                    q as int,
                    j - 65,
                ),
    {
        let before: Expr = if k == 0 {
            cur(b + 32)
        } else {
            cur(q + k - 1)
        };
        r.push(cur(q + k).minus(&before.times(&cur(b + 33 + k))));
    }
    let low: Expr = recon_expr(b, 32);
    r.push(cur(q + 30).times(&low));
    proof {
        assert forall|env: Env| #[trigger]
            vals(r@, env) == canon_polys(env.cur, x as int, b as int, q as int) by {
            assert(vals(bits, env) == bits_z(env.cur, b as int, 64));
            assert forall|i: int| 0 <= i < 64 implies vals(r@, env)[i] == bits_z(env.cur, b as int, 64)[i] by {
                assert(vals(bits, env)[i] == bits[i].val(env));
                assert(r@[i] == bits[i]);
            }
            assert(vals(r@, env) =~= canon_polys(env.cur, x as int, b as int, q as int));
        }
    }
    r
}

/// The link between two Merkle blocks: the first lanes of the next row hold the current digest and
/// the sibling in the order that the next direction bit gives.
pub open spec fn link_z(c: Seq<int>, n: Seq<int>, sib: int, bit: int, j: int) -> int {
    let (k, b) = (j / 2, n[bit]);
    if j % 2 == 0 {
        n[k] - ((1 - b) * c[k] + b * n[sib + k])
    } else {
        n[4 + k] - ((1 - b) * n[sib + k] + b * c[k])
    }
}

pub open spec fn link_polys(c: Seq<int>, n: Seq<int>, sib: int, bit: int) -> Seq<int> {
    Seq::new(8, |j: int| link_z(c, n, sib, bit, j))
}

pub fn link_exprs(sib: usize, bit: usize) -> (r: Vec<Expr>)
    requires
        sib + 4 <= usize::MAX,
    ensures
        r.len() == 8,
        forall|env: Env|
            #[trigger] vals(r@, env) == link_polys(env.cur, env.nxt, sib as int, bit as int),
{
    let mut r: Vec<Expr> = Vec::new();
    let b: Expr = nxt(bit);
    let nb: Expr = cst(1).minus(&b);
    for k in 0..4
        invariant
            sib + 4 <= usize::MAX,
            forall|env: Env| #[trigger] b.val(env) == env.nxt[bit as int],
            forall|env: Env| #[trigger] nb.val(env) == 1 - env.nxt[bit as int],
            r.len() == 2 * k,
            forall|j: int, env: Env|
                0 <= j < 2 * k ==> (#[trigger] r@[j].val(env)) == link_z(
                    env.cur,
                    env.nxt,
                    sib as int,
                    bit as int,
                    j,
                ),
    {
        let s: Expr = nxt(sib + k);
        let c: Expr = cur(k);
        r.push(nxt(k).minus(&nb.times(&c).plus(&b.times(&s))));
        r.push(nxt(4 + k).minus(&nb.times(&s).plus(&b.times(&c))));
    }
    proof {
        assert forall|env: Env| #[trigger]
            vals(r@, env) == link_polys(env.cur, env.nxt, sib as int, bit as int) by {
            assert(vals(r@, env) =~= link_polys(env.cur, env.nxt, sib as int, bit as int));
        }
    }
    r
}

/// The number of lanes that a sponge absorbs at once.
pub const RATE: usize = 4;

/// The lane that counts absorbed elements.
pub const CAP_LANE: usize = 4;

/// Periodic columns of a duplex sponge: the last row of each block, the counts of this block and
/// of the next one, and whether the next block squeezes.
pub const FT_P_BLOCK_LAST: usize = 11;

pub const FT_COUNT: usize = 12;

pub const FT_COUNT_NEXT: usize = 13;

pub const FT_IS_SQ_NEXT: usize = 14;

/// One column per bound challenge follows, then one per bound index.
pub const FT_BIND_START: usize = 15;

/// The first row starts from a zero capacity with the count of its block folded in.
pub open spec fn sponge_start(c: Seq<int>, count: int) -> Seq<int> {
    seq![c[4] - count, c[5], c[6], c[7]]
}

pub fn sponge_start_exprs(count: &Expr) -> (r: Vec<Expr>)
    ensures
        r.len() == 4,
        forall|env: Env| #[trigger] vals(r@, env) == sponge_start(env.cur, count.val(env)),
{
    let mut r: Vec<Expr> = Vec::new();
    r.push(cur(4).minus(count));
    r.push(cur(5));
    r.push(cur(6));
    r.push(cur(7));
    proof {
        assert forall|env: Env| #[trigger]
            vals(r@, env) == sponge_start(env.cur, count.val(env)) by {
            assert(vals(r@, env) =~= sponge_start(env.cur, count.val(env)));
        }
    }
    r
}

/// From block to block the capacity carries, with the count of the next block folded in, and on a
/// squeeze the rate carries too.
pub open spec fn sponge_link(c: Seq<int>, n: Seq<int>, p: Seq<int>) -> Seq<int> {
    let last = p[11];
    seq![
        last * (n[4] - c[4] - p[13]),
        last * (n[5] - c[5]),
        last * (n[6] - c[6]),
        last * (n[7] - c[7]),
        last * p[14] * (n[0] - c[0]),
        last * p[14] * (n[1] - c[1]),
        last * p[14] * (n[2] - c[2]),
        last * p[14] * (n[3] - c[3]),
    ]
}

pub fn sponge_link_exprs() -> (r: Vec<Expr>)
    ensures
        r.len() == 8,
        forall|env: Env| #[trigger] vals(r@, env) == sponge_link(env.cur, env.nxt, env.per),
{
    let last: Expr = per(FT_P_BLOCK_LAST);
    let sq: Expr = last.times(&per(FT_IS_SQ_NEXT));
    let mut r: Vec<Expr> = Vec::new();
    r.push(last.times(&nxt(4).minus(&cur(4)).minus(&per(FT_COUNT_NEXT))));
    r.push(last.times(&nxt(5).minus(&cur(5))));
    r.push(last.times(&nxt(6).minus(&cur(6))));
    r.push(last.times(&nxt(7).minus(&cur(7))));
    r.push(sq.times(&nxt(0).minus(&cur(0))));
    r.push(sq.times(&nxt(1).minus(&cur(1))));
    r.push(sq.times(&nxt(2).minus(&cur(2))));
    r.push(sq.times(&nxt(3).minus(&cur(3))));
    proof {
        assert forall|env: Env| #[trigger]
            vals(r@, env) == sponge_link(env.cur, env.nxt, env.per) by {
            assert(vals(r@, env) =~= sponge_link(env.cur, env.nxt, env.per));
        }
    }
    r
}

/// Binding `j / 2`: where its column is set, the two public coefficients of a challenge are the
/// last two rate lanes, from the back.
pub open spec fn bind_z(c: Seq<int>, p: Seq<int>, pis: Seq<int>, j: int) -> int {
    p[FT_BIND_START + j / 2] * (c[if j % 2 == 0 {
        3
    } else {
        2
    }] - pis[j])
}

pub open spec fn bind_polys(c: Seq<int>, p: Seq<int>, pis: Seq<int>, nb: int) -> Seq<int> {
    Seq::new((2 * nb) as nat, |j: int| bind_z(c, p, pis, j))
}

pub fn bind_exprs(nb: usize) -> (r: Vec<Expr>)
    requires
        2 * nb + FT_BIND_START <= usize::MAX,
    ensures
        r.len() == 2 * nb,
        forall|env: Env|
            #[trigger] vals(r@, env) == bind_polys(env.cur, env.per, env.pis, nb as int),
{
    let mut r: Vec<Expr> = Vec::new();
    for k in 0..nb
        invariant
            2 * nb + FT_BIND_START <= usize::MAX,
            r.len() == 2 * k,
            forall|j: int, env: Env|
                0 <= j < 2 * k ==> (#[trigger] r@[j].val(env)) == bind_z(
                    env.cur,
                    env.per,
                    env.pis,
                    j,
                ),
    {
        let b: Expr = per(FT_BIND_START + k);
        r.push(b.times(&cur(3).minus(&pis(2 * k))));
        r.push(b.times(&cur(2).minus(&pis(2 * k + 1))));
    }
    proof {
        assert forall|env: Env| #[trigger]
            vals(r@, env) == bind_polys(env.cur, env.per, env.pis, nb as int) by {
            assert(vals(r@, env) =~= bind_polys(env.cur, env.per, env.pis, nb as int));
        }
    }
    r
}

/// Index binding `k`: where its column is set, the public index element is the lane it was popped
/// from.
pub open spec fn index_bind_polys(
    c: Seq<int>,
    p: Seq<int>,
    pis: Seq<int>,
    nb: int,
    index_binds: Seq<(usize, usize)>,
) -> Seq<int> {
    Seq::new(
        index_binds.len(),
        |k: int|
            p[FT_BIND_START + nb + k] * (c[index_binds[k].1 as int] - pis[2 * nb + k]),
    )
}

pub fn index_bind_exprs(nb: usize, index_binds: &Vec<(usize, usize)>) -> (r: Vec<Expr>)
    requires
        2 * nb + index_binds.len() + FT_BIND_START <= usize::MAX,
    ensures
        r.len() == index_binds.len(),
        forall|env: Env|
            #[trigger] vals(r@, env) == index_bind_polys(
                env.cur,
                env.per,
                env.pis,
                nb as int,
                index_binds@,
            ),
{
    let mut r: Vec<Expr> = Vec::new();
    let n: usize = index_binds.len();
    for k in 0..n
        invariant
            n == index_binds.len(),
            2 * nb + index_binds.len() + FT_BIND_START <= usize::MAX,
            r.len() == k,
            forall|j: int, env: Env|
                0 <= j < k ==> (#[trigger] r@[j].val(env)) == env.per[FT_BIND_START + nb + j] * (
                env.cur[index_binds@[j].1 as int] - env.pis[2 * nb + j]),
    {
        let b: Expr = per(FT_BIND_START + nb + k);
        r.push(b.times(&cur(index_binds[k].1).minus(&pis(2 * nb + k))));
    }
    proof {
        assert forall|env: Env| #[trigger]
            vals(r@, env) == index_bind_polys(env.cur, env.per, env.pis, nb as int, index_binds@) by {
            assert(vals(r@, env) =~= index_bind_polys(
                env.cur,
                env.per,
                env.pis,
                nb as int,
                index_binds@,
            ));
        }
    }
    r
}

/// A bit selects one of two values.
pub proof fn lemma_select(b: int, x: int, y: int)
    ensures
        b == 0 ==> (1 - b) * x + b * y == x,
        b == 1 ==> (1 - b) * x + b * y == y,
{
    assert(b == 0 ==> (1 - b) * x + b * y == x) by (nonlinear_arith);
    assert(b == 1 ==> (1 - b) * x + b * y == y) by (nonlinear_arith);
}

/// The links between two Merkle blocks vanish where the next lanes are the current digest and the
/// next sibling, in the order of the next bit.
pub proof fn lemma_link(c: Seq<int>, n: Seq<int>, sib: int, bit: int)
    requires
        n[bit] == 0 || n[bit] == 1,
        forall|k: int|
            #![trigger c[k]]
            0 <= k < 4 ==> if n[bit] == 1 {
                n[k] == n[sib + k] && n[4 + k] == c[k]
            } else {
                n[k] == c[k] && n[4 + k] == n[sib + k]
            },
    ensures
        forall|j: int| 0 <= j < 8 ==> #[trigger] link_polys(c, n, sib, bit)[j] == 0,
{
    assert forall|j: int| 0 <= j < 8 implies #[trigger] link_polys(c, n, sib, bit)[j] == 0 by {
        let k = j / 2;
        lemma_select(n[bit], c[k], n[sib + k]);
        lemma_select(n[bit], n[sib + k], c[k]);
        assert(c[k] == c[k]);
    }
}

} // verus!
