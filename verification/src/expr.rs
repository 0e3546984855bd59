//! Polynomial constraints over one trace row and the row after it.
//!
//! A constraint is a tree over trace cells, periodic columns and public values. Its meaning is the
//! integer polynomial `val`; it holds where that integer is divisible by the field order.
use crate::field::{ints, red, W_EXT, zadd, zmul, zsub};
use vstd::prelude::*;

verus! {

/// A polynomial in the cells of two adjacent rows, the periodic columns and the public values.
#[derive(Debug)]
pub enum Expr {
    Const(u64),
    Cur(usize),
    Next(usize),
    Periodic(usize),
    Public(usize),
    Sum(Box<Expr>, Box<Expr>),
    Difference(Box<Expr>, Box<Expr>),
    Product(Box<Expr>, Box<Expr>),
}

/// What a polynomial is evaluated on.
#[verifier::ext_equal]
pub struct Env {
    pub cur: Seq<int>,
    pub nxt: Seq<int>,
    pub per: Seq<int>,
    pub pis: Seq<int>,
}

/// The rows of a trace on which a constraint is enforced.
#[derive(Clone, Copy, Debug, PartialEq, Eq, Structural)]
pub enum Gate {
    /// Every row.
    Always,
    /// The first row.
    First,
    /// The last row.
    Last,
    /// Every row but the last.
    Transition,
}

/// A polynomial that vanishes on the rows its gate selects.
#[derive(Debug)]
pub struct Constraint {
    pub gate: Gate,
    pub expr: Expr,
}

impl Expr {
    /// The integer value of the polynomial.
    #[verifier::opaque]
    pub open spec fn val(self, env: Env) -> int
        decreases self,
    {
        match self {
            Expr::Const(c) => c as int,
            Expr::Cur(i) => env.cur[i as int],
            Expr::Next(i) => env.nxt[i as int],
            Expr::Periodic(i) => env.per[i as int],
            Expr::Public(i) => env.pis[i as int],
            Expr::Sum(a, b) => a.val(env) + b.val(env),
            Expr::Difference(a, b) => a.val(env) - b.val(env),
            Expr::Product(a, b) => a.val(env) * b.val(env),
        }
    }

    /// A copy of the tree.
    pub fn dup(&self) -> (r: Expr)
        ensures
            r == *self,
        decreases self,
    {
        match self {
            Expr::Const(c) => Expr::Const(*c),
            Expr::Cur(i) => Expr::Cur(*i),
            Expr::Next(i) => Expr::Next(*i),
            Expr::Periodic(i) => Expr::Periodic(*i),
            Expr::Public(i) => Expr::Public(*i),
            Expr::Sum(a, b) => Expr::Sum(Box::new((&**a).dup()), Box::new((&**b).dup())),
            Expr::Difference(a, b) => Expr::Difference(
                Box::new((&**a).dup()),
                Box::new((&**b).dup()),
            ),
            Expr::Product(a, b) => Expr::Product(Box::new((&**a).dup()), Box::new((&**b).dup())),
        }
    }

    pub fn plus(&self, o: &Expr) -> (r: Expr)
        ensures
            forall|env: Env| #[trigger] r.val(env) == self.val(env) + o.val(env),
    {
        reveal(Expr::val);
        Expr::Sum(Box::new(self.dup()), Box::new(o.dup()))
    }

    pub fn minus(&self, o: &Expr) -> (r: Expr)
        ensures
            forall|env: Env| #[trigger] r.val(env) == self.val(env) - o.val(env),
    {
        reveal(Expr::val);
        Expr::Difference(Box::new(self.dup()), Box::new(o.dup()))
    }

    pub fn times(&self, o: &Expr) -> (r: Expr)
        ensures
            forall|env: Env| #[trigger] r.val(env) == self.val(env) * o.val(env),
    {
        reveal(Expr::val);
        Expr::Product(Box::new(self.dup()), Box::new(o.dup()))
    }
}

pub fn cst(c: u64) -> (r: Expr)
    ensures
        forall|env: Env| #[trigger] r.val(env) == c,
{
    reveal(Expr::val);
    Expr::Const(c)
}

pub fn cur(i: usize) -> (r: Expr)
    ensures
        forall|env: Env| #[trigger] r.val(env) == env.cur[i as int],
{
    reveal(Expr::val);
    Expr::Cur(i)
}

pub fn nxt(i: usize) -> (r: Expr)
    ensures
        forall|env: Env| #[trigger] r.val(env) == env.nxt[i as int],
{
    reveal(Expr::val);
    Expr::Next(i)
}

pub fn per(i: usize) -> (r: Expr)
    ensures
        forall|env: Env| #[trigger] r.val(env) == env.per[i as int],
{
    reveal(Expr::val);
    Expr::Periodic(i)
}

pub fn pis(i: usize) -> (r: Expr)
    ensures
        forall|env: Env| #[trigger] r.val(env) == env.pis[i as int],
{
    reveal(Expr::val);
    Expr::Public(i)
}

/// `x * (1 - x)`, which vanishes on bits.
pub fn bit_poly(x: &Expr) -> (r: Expr)
    ensures
        forall|env: Env| #[trigger] r.val(env) == x.val(env) * (1 - x.val(env)),
{
    x.times(&cst(1).minus(x))
}

/// The values of a list of polynomials.
pub open spec fn vals(xs: Seq<Expr>, env: Env) -> Seq<int> {
    Seq::new(xs.len(), |i: int| xs[i].val(env))
}

/// `s` with every entry under gate `g`.
pub open spec fn gated(g: Gate, s: Seq<int>) -> Seq<(Gate, int)> {
    Seq::new(s.len(), |i: int| (g, s[i]))
}

/// `s` with every entry scaled by `k`.
pub open spec fn scaled(k: int, s: Seq<int>) -> Seq<int> {
    Seq::new(s.len(), |i: int| k * s[i])
}

/// The gates and values of a list of constraints.
pub open spec fn denote(cs: Seq<Constraint>, env: Env) -> Seq<(Gate, int)> {
    Seq::new(cs.len(), |i: int| (cs[i].gate, cs[i].expr.val(env)))
}

/// Appends one constraint.
pub fn emit(out: &mut Vec<Constraint>, gate: Gate, expr: Expr)
    ensures
        forall|env: Env|
            #[trigger] denote(final(out)@, env) == denote(old(out)@, env).push(
                (gate, expr.val(env)),
            ),
{
    out.push(Constraint { gate, expr });
    proof {
        assert forall|env: Env|
            #[trigger] denote(out@, env) == denote(old(out)@, env).push((gate, expr.val(env))) by {
            assert(denote(out@, env) =~= denote(old(out)@, env).push((gate, expr.val(env))));
        }
    }
}

/// Appends a list of polynomials under one gate.
pub fn emit_all(out: &mut Vec<Constraint>, gate: Gate, xs: &Vec<Expr>)
    ensures
        forall|env: Env|
            #[trigger] denote(final(out)@, env) == denote(old(out)@, env) + gated(
                gate,
                vals(xs@, env),
            ),
{
    let ghost before = out@;
    let n: usize = xs.len();
    for k in 0..n
        invariant
            n == xs.len(),
            out@.len() == before.len() + k,
            forall|i: int| 0 <= i < before.len() ==> #[trigger] out@[i] == before[i],
            forall|i: int|
                #![trigger out@[i]]
                before.len() <= i < before.len() + k ==> out@[i].gate == gate && out@[i].expr
                    == xs@[i - before.len()],
    {
        out.push(Constraint { gate, expr: xs[k].dup() });
    }
    proof {
        assert forall|env: Env|
            #[trigger] denote(out@, env) == denote(before, env) + gated(gate, vals(xs@, env)) by {
            assert(denote(out@, env) =~= denote(before, env) + gated(gate, vals(xs@, env)));
        }
    }
}

/// The list with every polynomial multiplied by `k`.
pub fn scale_all(k: &Expr, xs: &Vec<Expr>) -> (r: Vec<Expr>)
    ensures
        r.len() == xs.len(),
        forall|env: Env| #[trigger] vals(r@, env) == scaled(k.val(env), vals(xs@, env)),
{
    let mut r: Vec<Expr> = Vec::new();
    let n: usize = xs.len();
    for j in 0..n
        invariant
            n == xs.len(),
            r.len() == j,
            forall|i: int, env: Env|
                0 <= i < j ==> (#[trigger] r@[i].val(env)) == k.val(env) * xs@[i].val(env),
    {
        r.push(k.times(&xs[j]));
    }
    proof {
        assert forall|env: Env| #[trigger]
            vals(r@, env) == scaled(k.val(env), vals(xs@, env)) by {
            assert(vals(r@, env) =~= scaled(k.val(env), vals(xs@, env)));
        }
    }
    r
}

/// `n` consecutive cells of the current row.
pub fn cur_range(from: usize, n: usize) -> (r: Vec<Expr>)
    requires
        from + n <= usize::MAX,
    ensures
        r.len() == n,
        forall|i: int, env: Env|
            0 <= i < n ==> (#[trigger] r@[i].val(env)) == env.cur[from + i],
{
    let mut r: Vec<Expr> = Vec::new();
    for j in 0..n
        invariant
            from + n <= usize::MAX,
            r.len() == j,
            forall|i: int, env: Env|
                0 <= i < j ==> (#[trigger] r@[i].val(env)) == env.cur[from + i],
    {
        r.push(cur(from + j));
    }
    r
}

/// `n` consecutive cells of the next row.
pub fn nxt_range(from: usize, n: usize) -> (r: Vec<Expr>)
    requires
        from + n <= usize::MAX,
    ensures
        r.len() == n,
        forall|i: int, env: Env|
            0 <= i < n ==> (#[trigger] r@[i].val(env)) == env.nxt[from + i],
{
    let mut r: Vec<Expr> = Vec::new();
    for j in 0..n
        invariant
            from + n <= usize::MAX,
            r.len() == j,
            forall|i: int, env: Env|
                0 <= i < j ==> (#[trigger] r@[i].val(env)) == env.nxt[from + i],
    {
        r.push(nxt(from + j));
    }
    r
}

/// A pair of polynomials that stands for an element of the quadratic extension.
#[derive(Debug)]
pub struct ExtExpr {
    pub c0: Expr,
    pub c1: Expr,
}

impl ExtExpr {
    pub open spec fn val(self, env: Env) -> (int, int) {
        (self.c0.val(env), self.c1.val(env))
    }

    pub fn dup(&self) -> (r: ExtExpr)
        ensures
            r == *self,
    {
        ExtExpr { c0: self.c0.dup(), c1: self.c1.dup() }
    }

    pub fn plus(&self, o: &ExtExpr) -> (r: ExtExpr)
        ensures
            forall|env: Env| #[trigger] r.val(env) == zadd(self.val(env), o.val(env)),
    {
        ExtExpr { c0: self.c0.plus(&o.c0), c1: self.c1.plus(&o.c1) }
    }

    pub fn minus(&self, o: &ExtExpr) -> (r: ExtExpr)
        ensures
            forall|env: Env| #[trigger] r.val(env) == zsub(self.val(env), o.val(env)),
    {
        ExtExpr { c0: self.c0.minus(&o.c0), c1: self.c1.minus(&o.c1) }
    }

    pub fn times(&self, o: &ExtExpr) -> (r: ExtExpr)
        ensures
            forall|env: Env| #[trigger] r.val(env) == zmul(self.val(env), o.val(env)),
    {
        ExtExpr {
            c0: self.c0.times(&o.c0).plus(&cst(W_EXT).times(&self.c1.times(&o.c1))),
            c1: self.c0.times(&o.c1).plus(&self.c1.times(&o.c0)),
        }
    }
}

/// Two consecutive cells of a row, read as an extension element.
pub open spec fn pair(row: Seq<int>, i: int) -> (int, int) {
    (row[i], row[i + 1])
}

pub fn cur_ext(i: usize) -> (r: ExtExpr)
    requires
        i < usize::MAX,
    ensures
        forall|env: Env| #[trigger] r.val(env) == pair(env.cur, i as int),
{
    ExtExpr { c0: cur(i), c1: cur(i + 1) }
}

pub fn nxt_ext(i: usize) -> (r: ExtExpr)
    requires
        i < usize::MAX,
    ensures
        forall|env: Env| #[trigger] r.val(env) == pair(env.nxt, i as int),
{
    ExtExpr { c0: nxt(i), c1: nxt(i + 1) }
}

pub fn pis_ext(i: usize) -> (r: ExtExpr)
    requires
        i < usize::MAX,
    ensures
        forall|env: Env| #[trigger] r.val(env) == pair(env.pis, i as int),
{
    ExtExpr { c0: pis(i), c1: pis(i + 1) }
}

/// A base polynomial seen in the extension.
pub fn base_ext(x: Expr) -> (r: ExtExpr)
    ensures
        forall|env: Env| #[trigger] r.val(env) == (x.val(env), 0int),
{
    ExtExpr { c0: x, c1: cst(0) }
}

/// An execution trace, row by row.
pub type Trace = Vec<Vec<u64>>;

/// The integers that a trace, or a list of periodic columns, holds.
pub open spec fn cells(t: Seq<Vec<u64>>) -> Seq<Seq<int>> {
    Seq::new(t.len(), |r: int| ints(t[r]@))
}

/// What the constraints see at row `r` of a trace; the row after the last one is the first.
pub open spec fn row_env(t: Seq<Seq<int>>, per: Seq<Seq<int>>, pis: Seq<int>, r: int) -> Env {
    Env {
        cur: t[r],
        nxt: t[if r + 1 == t.len() {
            0
        } else {
            r + 1
        }],
        per: Seq::new(per.len(), |j: int| per[j][r % (per[j].len() as int)]),
        pis,
    }
}

/// Whether a gate selects row `r` of a trace of height `h`.
pub open spec fn active(g: Gate, r: int, h: int) -> bool {
    match g {
        Gate::Always => true,
        Gate::First => r == 0,
        Gate::Last => r == h - 1,
        Gate::Transition => r != h - 1,
    }
}

/// Whether all constraints of a list of gates and values hold at row `r` of a trace of height `h`.
pub open spec fn holds(polys: Seq<(Gate, int)>, r: int, h: int) -> bool {
    forall|i: int|
        #![trigger polys[i]]
        0 <= i < polys.len() && active(polys[i].0, r, h) ==> red(polys[i].1) == 0
}

/// Whether a trace meets a constraint system at every row.
pub open spec fn satisfied(
    polys: spec_fn(Env) -> Seq<(Gate, int)>,
    t: Seq<Seq<int>>,
    per: Seq<Seq<int>>,
    pis: Seq<int>,
) -> bool {
    forall|r: int|
        #![trigger row_env(t, per, pis, r)]
        0 <= r < t.len() ==> holds(polys(row_env(t, per, pis, r)), r, t.len() as int)
}

pub proof fn lemma_holds_concat(a: Seq<(Gate, int)>, b: Seq<(Gate, int)>, r: int, h: int)
    ensures
        holds(a + b, r, h) <==> holds(a, r, h) && holds(b, r, h),
{
    let c = a + b;
    if holds(c, r, h) {
        assert forall|i: int|
            #![trigger a[i]]
            0 <= i < a.len() && active(a[i].0, r, h) implies red(a[i].1) == 0 by {
            assert(c[i] == a[i]);
        }
        assert forall|i: int|
            #![trigger b[i]]
            0 <= i < b.len() && active(b[i].0, r, h) implies red(b[i].1) == 0 by {
            assert(c[a.len() + i] == b[i]);
        }
    }
    if holds(a, r, h) && holds(b, r, h) {
        assert forall|i: int|
            #![trigger c[i]]
            0 <= i < c.len() && active(c[i].0, r, h) implies red(c[i].1) == 0 by {
            if i < a.len() {
                assert(c[i] == a[i]);
            } else {
                assert(c[i] == b[i - a.len()]);
            }
        }
    }
}

pub proof fn lemma_holds_push(a: Seq<(Gate, int)>, x: (Gate, int), r: int, h: int)
    ensures
        holds(a.push(x), r, h) <==> holds(a, r, h) && (active(x.0, r, h) ==> red(x.1) == 0),
{
    let b = seq![x];
    lemma_holds_concat(a, b, r, h);
    assert(a.push(x) =~= a + b);
    assert(b[0] == x);
}

/// Whether every value of a list vanishes in the field.
pub open spec fn vanish(s: Seq<int>) -> bool {
    forall|i: int| 0 <= i < s.len() ==> red(#[trigger] s[i]) == 0
}

pub proof fn lemma_holds_gated(g: Gate, s: Seq<int>, r: int, h: int)
    ensures
        holds(gated(g, s), r, h) <==> (active(g, r, h) ==> vanish(s)),
{
    let a = gated(g, s);
    if holds(a, r, h) && active(g, r, h) {
        assert forall|i: int| 0 <= i < s.len() implies red(#[trigger] s[i]) == 0 by {
            assert(a[i] == (g, s[i]));
        }
    }
}

/// A list scaled by zero vanishes; scaled by one it is itself.
pub proof fn lemma_scaled(k: int, s: Seq<int>)
    ensures
        k == 0 ==> vanish(scaled(k, s)),
        k == 1 ==> scaled(k, s) == s,
{
    if k == 0 {
        assert forall|i: int| 0 <= i < s.len() implies red(#[trigger] scaled(k, s)[i]) == 0 by {
            assert(scaled(k, s)[i] == 0 * s[i]);
            assert(0 * s[i] == 0);
        }
    }
    if k == 1 {
        assert forall|i: int| 0 <= i < s.len() implies scaled(k, s)[i] == s[i] by {
            assert(1 * s[i] == s[i]);
        }
        assert(scaled(k, s) =~= s);
    }
}

} // verus!
