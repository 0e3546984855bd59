//! The check of a proof's constraints at the out-of-domain point: the selectors there, the constraints
//! folded with the combination challenge, and the quotient that they are held against.
use crate::aggregate::options::{CAP_HEIGHT, LOG_BLOWUP, NUM_QUERIES};
use crate::aggregate::inputs::PlainConfig;
use crate::challenger::{after_ext, sampled, sampled_ext, views, Challenger};
use crate::expr::{Constraint, Env, Expr, Gate};
use crate::field::{
    eadd, ecanonical, econg, eeq, efrom, einv_z, einverse, emul, eone, ered, esub, ezero, finv_z,
    generator_table, generators, ints, inverse, is_inverse, lemma_ered, red, two_adic_gen, zadd,
    zmul, zscale, zsub, Challenge, GENERATOR, P,
};
use crate::fri_query::{epow2k, esquare, FriParams};
use crate::mmcs::Pair;
use crate::native_fri::pow_z;
use crate::fri_laws::law_verified_indices;
use crate::fri_verify::{fri_run, query_fail};
use crate::hiding_open::{check_openings, hiding_opened, openable};
use crate::native_verify::{const_constraints, ConstAir};
use crate::plain_proof::{arities_z, PlainProof};
use crate::replay::{at_alpha_fri, at_beta, at_index, script};
use crate::stark::{
    all_caps_ok, before_alpha, before_zeta, observed_coms, opening_rounds, rounds_are, rounds_fail,
    validate_degree_bits, verify_openings, OpeningRounds, ProofError, TWO_ADICITY,
};
use p3_commit::PolynomialSpace;
use p3_field::coset::TwoAdicMultiplicativeCoset;
use p3_field::{BasedVectorSpace, Field, PrimeField64};
use p3_goldilocks::Goldilocks;
use p3_uni_stark::recompose_quotient_from_chunks;
use vstd::arithmetic::power2::pow2;
use vstd::prelude::*;

verus! {

/// What a polynomial is evaluated on at a point of the extension.
#[verifier::ext_equal]
pub struct ExtEnv {
    pub cur: Seq<(int, int)>,
    pub nxt: Seq<(int, int)>,
    pub per: Seq<(int, int)>,
    pub pis: Seq<int>,
}

/// The openings of the trace at the out-of-domain point and at the next one, the periodic values there,
/// and the public values.
#[derive(Debug)]
pub struct OpenedRows<'a> {
    pub local: &'a Vec<Challenge>,
    pub next: &'a Vec<Challenge>,
    pub periodic: &'a Vec<Challenge>,
    pub publics: &'a [u64],
}

impl<'a> OpenedRows<'a> {
    pub open spec fn env(self) -> ExtEnv {
        ExtEnv {
            cur: views(self.local@),
            nxt: views(self.next@),
            per: views(self.periodic@),
            pis: ints(self.publics@),
        }
    }
}

/// The value of a polynomial at a point of the extension.
pub open spec fn ext_value(e: Expr, env: ExtEnv) -> (int, int)
    decreases e,
{
    match e {
        Expr::Const(c) => ered((c as int, 0)),
        Expr::Cur(i) => ered(env.cur[i as int]),
        Expr::Next(i) => ered(env.nxt[i as int]),
        Expr::Periodic(i) => ered(env.per[i as int]),
        Expr::Public(i) => ered((env.pis[i as int], 0)),
        Expr::Sum(a, b) => ered(zadd(ext_value(*a, env), ext_value(*b, env))),
        Expr::Difference(a, b) => ered(zsub(ext_value(*a, env), ext_value(*b, env))),
        Expr::Product(a, b) => ered(zmul(ext_value(*a, env), ext_value(*b, env))),
    }
}

/// The columns that a polynomial reads are opened.
pub open spec fn reads(e: Expr, env: ExtEnv) -> bool
    decreases e,
{
    match e {
        Expr::Const(_) => true,
        Expr::Cur(i) => i < env.cur.len(),
        Expr::Next(i) => i < env.nxt.len(),
        Expr::Periodic(i) => i < env.per.len(),
        Expr::Public(i) => i < env.pis.len(),
        Expr::Sum(a, b) => reads(*a, env) && reads(*b, env),
        Expr::Difference(a, b) => reads(*a, env) && reads(*b, env),
        Expr::Product(a, b) => reads(*a, env) && reads(*b, env),
    }
}

/// The value of a polynomial at a point of the extension, from the openings there; `None` where it reads
/// a column that is not opened.
pub fn eval_symbolic_native(e: &Expr, at: &OpenedRows) -> (r: Option<Challenge>)
    ensures
        match r {
            Some(v) => reads(*e, at.env()) && v@ == ext_value(*e, at.env()),
            None => !reads(*e, at.env()),
        },
    decreases *e,
{
    match e {
        Expr::Const(c) => Some(eadd(efrom(*c), ezero())),
        Expr::Cur(i) => if *i < at.local.len() {
            Some(eadd(at.local[*i], ezero()))
        } else {
            None
        },
        Expr::Next(i) => if *i < at.next.len() {
            Some(eadd(at.next[*i], ezero()))
        } else {
            None
        },
        Expr::Periodic(i) => if *i < at.periodic.len() {
            Some(eadd(at.periodic[*i], ezero()))
        } else {
            None
        },
        Expr::Public(i) => if *i < at.publics.len() {
            Some(eadd(efrom(at.publics[*i]), ezero()))
        } else {
            None
        },
        Expr::Sum(a, b) => match (eval_symbolic_native(a, at), eval_symbolic_native(b, at)) {
            (Some(x), Some(y)) => Some(eadd(x, y)),
            _ => None,
        },
        Expr::Difference(a, b) => match (eval_symbolic_native(a, at), eval_symbolic_native(b, at)) {
            (Some(x), Some(y)) => Some(esub(x, y)),
            _ => None,
        },
        Expr::Product(a, b) => match (eval_symbolic_native(a, at), eval_symbolic_native(b, at)) {
            (Some(x), Some(y)) => Some(emul(x, y)),
            _ => None,
        },
    }
}

/// The selectors of a domain at a point: of its first row, of its last row, of every row but the last,
/// and the inverse of its vanishing polynomial.
#[derive(Clone, Copy, Debug)]
pub struct Selectors {
    pub is_first: Challenge,
    pub is_last: Challenge,
    pub is_transition: Challenge,
    pub inv_van: Challenge,
}

/// The vanishing polynomial of the subgroup of order `2^k`.
pub open spec fn vanishing(x: (int, int), k: nat) -> (int, int) {
    ered(zsub(epow2k(x, k), (1int, 0int)))
}

/// The distance of a point from the last row of the subgroup of order `2^k`.
pub open spec fn to_last(x: (int, int), k: int) -> (int, int) {
    ered(zsub(x, (finv_z(two_adic_gen(k)), 0int)))
}

impl Selectors {
    /// The selectors are those of the subgroup of order `2^k` at `x`.
    pub open spec fn of(self, x: (int, int), k: int) -> bool {
        let z = vanishing(x, k as nat);
        &&& self.is_first@ == ered(zmul(z, einv_z(ered(zsub(x, (1int, 0int))))))
        &&& self.is_last@ == ered(zmul(z, einv_z(to_last(x, k))))
        &&& self.is_transition@ == to_last(x, k)
        &&& self.inv_van@ == einv_z(z)
    }
}

/// The values of the first `n` constraints folded with the combination challenge.
pub open spec fn folded_z(values: Seq<(int, int)>, alpha: (int, int), n: nat) -> (int, int)
    decreases n,
{
    if n == 0 {
        (0, 0)
    } else {
        ered(zadd(zmul(folded_z(values, alpha, (n - 1) as nat), alpha), values[n - 1]))
    }
}

/// The value of a constraint under its gate.
pub open spec fn gated_value(g: Gate, v: (int, int), s: Selectors) -> (int, int) {
    match g {
        Gate::Always => v,
        Gate::First => ered(zmul(s.is_first@, v)),
        Gate::Last => ered(zmul(s.is_last@, v)),
        Gate::Transition => ered(zmul(s.is_transition@, v)),
    }
}

/// The values of constraints under their gates.
pub open spec fn gated_values(cs: Seq<Constraint>, env: ExtEnv, s: Selectors) -> Seq<(int, int)> {
    Seq::new(cs.len(), |i: int| gated_value(cs[i].gate, ext_value(cs[i].expr, env), s))
}

/// Every constraint reads columns that are opened.
pub open spec fn all_read(cs: Seq<Constraint>, env: ExtEnv) -> bool {
    forall|i: int| 0 <= i < cs.len() ==> reads((#[trigger] cs[i]).expr, env)
}

proof fn lemma_ered_ered(a: (int, int))
    ensures
        ered(ered(a)) == ered(a),
{
    lemma_ered(a);
}

/// The value of a point squared again starts from its square.
proof fn lemma_epow2k_shift(x: (int, int), k: nat)
    requires
        k > 0,
    ensures
        epow2k(x, k) == epow2k(ered(zmul(ered(x), ered(x))), (k - 1) as nat),
    decreases k,
{
    lemma_ered_ered(zmul(ered(x), ered(x)));
    if k > 1 {
        lemma_epow2k_shift(x, (k - 1) as nat);
    } else {
        assert(epow2k(x, 0) == ered(x));
    }
}

/// The inverse of a generator is a point of its subgroup.
proof fn lemma_inverse_in_subgroup(h: int, k: nat)
    requires
        generators(),
        k <= 32,
        is_inverse(two_adic_gen(k as int), h),
    ensures
        epow2k((h, 0int), k) == (1int, 0int),
    decreases k,
{
    let g = two_adic_gen(k as int);
    crate::field::lemma_red_small(h);
    crate::field::lemma_red_small(0);
    assert(ered((h, 0int)) == (h, 0int));
    if k == 0 {
        assert(g * h == h) by (nonlinear_arith)
            requires
                g == 1,
        ;
    } else {
        let sq = red(h * h);
        lemma_epow2k_shift((h, 0int), k);
        assert(zmul((h, 0int), (h, 0int)) == (h * h, 0int)) by {
            let w = crate::field::W_EXT as int;
            assert(w * (0 * 0) == 0 && h * 0 == 0 && 0 * h == 0) by (nonlinear_arith);
        }
        assert(ered((h * h, 0int)) == (sq, 0int));
        // (g h)^2 = g^2 h^2
        let g2 = two_adic_gen(k - 1);
        crate::field::lemma_cong_mul(g * h, 1, g * h, 1);
        crate::field::lemma_red_small(1);
        assert((g * h) * (g * h) == (g * g) * (h * h)) by (nonlinear_arith);
        crate::field::lemma_red_red(g * g);
        crate::field::lemma_red_red(h * h);
        crate::field::lemma_cong_mul(g * g, g2, h * h, sq);
        crate::field::lemma_red_bound(h * h);
        assert(is_inverse(g2, sq));
        lemma_inverse_in_subgroup(sq, (k - 1) as nat);
    }
}

/// A point off the subgroup is neither its first nor its last.
pub proof fn lemma_off_domain(x: (int, int), k: nat, h: int)
    requires
        generators(),
        k <= 32,
        is_inverse(two_adic_gen(k as int), h),
        epow2k(x, k) != (1int, 0int),
    ensures
        vanishing(x, k) != (0int, 0int),
        ered(zsub(x, (1int, 0int))) != (0int, 0int),
        ered(zsub(x, (h, 0int))) != (0int, 0int),
{
    lemma_epow2k_canonical(x, k);
    lemma_differ(epow2k(x, k), (1int, 0int));
    crate::field::lemma_red_small(1);
    crate::field::lemma_red_small(0);
    if ered(zsub(x, (1int, 0int))) == (0int, 0int) {
        lemma_same(x, (1int, 0int));
        lemma_epow2k_same(x, (1int, 0int), k);
        lemma_one_in_subgroup(k);
    }
    if ered(zsub(x, (h, 0int))) == (0int, 0int) {
        lemma_same(x, (h, 0int));
        lemma_epow2k_same(x, (h, 0int), k);
        lemma_inverse_in_subgroup(h, k);
    }
}

proof fn lemma_epow2k_canonical(x: (int, int), k: nat)
    ensures
        ered(epow2k(x, k)) == epow2k(x, k),
{
    if k == 0 {
        lemma_ered_ered(x);
    } else {
        let y = epow2k(x, (k - 1) as nat);
        lemma_ered_ered(zmul(y, y));
    }
}

proof fn lemma_epow2k_same(x: (int, int), y: (int, int), k: nat)
    requires
        ered(x) == ered(y),
    ensures
        epow2k(x, k) == epow2k(y, k),
    decreases k,
{
    if k > 0 {
        lemma_epow2k_same(x, y, (k - 1) as nat);
    }
}

proof fn lemma_one_in_subgroup(k: nat)
    ensures
        epow2k((1int, 0int), k) == (1int, 0int),
    decreases k,
{
    crate::field::lemma_red_small(1);
    crate::field::lemma_red_small(0);
    if k > 0 {
        lemma_one_in_subgroup((k - 1) as nat);
        assert(zmul((1int, 0int), (1int, 0int)) == (1int, 0int)) by {
            assert(7 * (0 * 0) == 0int && 1 * 0 == 0int && 0 * 1 == 0int) by (nonlinear_arith);
        }
    }
}

/// Elements with a zero difference are the same.
proof fn lemma_same(a: (int, int), b: (int, int))
    requires
        ered(zsub(a, b)) == (0int, 0int),
    ensures
        ered(a) == ered(b),
{
    crate::field::lemma_red_small(0);
    crate::field::lemma_cong_add(a.0 - b.0, 0, b.0, b.0);
    crate::field::lemma_cong_add(a.1 - b.1, 0, b.1, b.1);
}

proof fn lemma_differ(a: (int, int), b: (int, int))
    requires
        ered(a) == a,
        a != b,
        ered(b) == b || b == (1int, 0int),
    ensures
        ered(zsub(a, b)) != (0int, 0int),
{
    if ered(zsub(a, b)) == (0int, 0int) {
        crate::field::lemma_red_small(1);
        crate::field::lemma_red_small(0);
        lemma_same(a, b);
    }
}

/// The last point of the subgroup of order `2^k`, for a point that is not in it: that is then neither
/// the first nor the last.
fn last_point(x: Challenge, k: usize) -> (r: Challenge)
    requires
        k <= 32,
        epow2k(x@, k as nat) != (1int, 0int),
    ensures
        r@ == (finv_z(two_adic_gen(k as int)), 0int),
        vanishing(x@, k as nat) != (0int, 0int),
        ered(zsub(x@, (1int, 0int))) != (0int, 0int),
        ered(zsub(x@, r@)) != (0int, 0int),
{
    let table: Vec<u64> = generator_table();
    let g: u64 = table[k];
    assert(two_adic_gen(k as int) == g);
    proof {
        crate::field::lemma_red_small(g as int);
    }
    let h: u64 = inverse(g);
    proof {
        lemma_off_domain(x@, k as nat, h as int);
    }
    Challenge { c0: h, c1: 0 }
}

/// The vanishing polynomial of the subgroup of order `2^k` at a point that is not in it, and the
/// distances of the point from the first and the last of the subgroup.
fn off_domain(x: Challenge, k: usize) -> (r: (Challenge, Challenge, Challenge))
    requires
        k <= 32,
        epow2k(x@, k as nat) != (1int, 0int),
    ensures
        r.0@ == vanishing(x@, k as nat),
        r.1@ == ered(zsub(x@, (1int, 0int))),
        r.2@ == to_last(x@, k as int),
        ered(r.0@) != (0int, 0int),
        ered(r.1@) != (0int, 0int),
        ered(r.2@) != (0int, 0int),
{
    let h: Challenge = last_point(x, k);
    let z: Challenge = esub(esquare(x, k), eone());
    let first: Challenge = esub(x, eone());
    let last: Challenge = esub(x, h);
    proof {
        lemma_ered_ered(zsub(epow2k(x@, k as nat), (1int, 0int)));
        lemma_ered_ered(zsub(x@, (1int, 0int)));
        lemma_ered_ered(zsub(x@, h@));
    }
    (z, first, last)
}

/// A quotient.
fn over(a: Challenge, b: Challenge) -> (r: Challenge)
    requires
        ered(b@) != (0int, 0int),
    ensures
        r@ == ered(zmul(a@, einv_z(b@))),
{
    emul(a, einverse(b))
}

/// The selectors of the subgroup of order `2^k` at a point that is not in it.
pub fn selectors_at(x: Challenge, k: usize) -> (r: Selectors)
    requires
        k <= 32,
        epow2k(x@, k as nat) != (1int, 0int),
    ensures
        r.of(x@, k as int),
{
    let (z, first, last) = off_domain(x, k);
    Selectors {
        is_first: over(z, first),
        is_last: over(z, last),
        is_transition: last,
        inv_van: einverse(z),
    }
}

/// The shift of quotient chunk `i`.
pub open spec fn chunk_shift(log_quotient: int, i: int) -> int {
    red(GENERATOR * pow_z(two_adic_gen(log_quotient), i as nat))
}

/// The vanishing polynomial of the coset of the subgroup of order `2^k` with shift `s`.
pub open spec fn coset_vanishing(x: (int, int), s: int, k: nat) -> (int, int) {
    vanishing(ered(zscale(x, finv_z(s))), k)
}

/// The weight of quotient chunk `i` at a point, over the first `n` chunks: one on its own coset and zero
/// on the others.
pub open spec fn chunk_weight(x: (int, int), log_quotient: int, k: nat, i: int, n: nat) -> (int, int)
    decreases n,
{
    if n == 0 {
        (1int, 0int)
    } else {
        let before = chunk_weight(x, log_quotient, k, i, (n - 1) as nat);
        if n - 1 == i {
            before
        } else {
            let s = chunk_shift(log_quotient, n - 1);
            let own = coset_vanishing((chunk_shift(log_quotient, i), 0int), s, k);
            ered(zmul(before, zmul(coset_vanishing(x, s, k), einv_z(own))))
        }
    }
}

/// The extension element with extension elements for its coordinates.
pub open spec fn lifted(c: Seq<(int, int)>) -> (int, int) {
    ered(zadd(c[0], zmul((0int, 1int), c[1])))
}

/// The quotient at a point from its first `n` chunks there, of `2^log_chunks` that it is split into.
pub open spec fn recomposed(
    x: (int, int),
    log_quotient: int,
    log_chunks: nat,
    chunks: Seq<Vec<Challenge>>,
    n: nat,
) -> (int, int)
    decreases n,
{
    if n == 0 {
        (0int, 0int)
    } else {
        let w = chunk_weight(
            x,
            log_quotient,
            (log_quotient - log_chunks) as nat,
            n - 1,
            pow2(log_chunks),
        );
        ered(
            zadd(
                recomposed(x, log_quotient, log_chunks, chunks, (n - 1) as nat),
                zmul(w, lifted(views(chunks[n - 1]@))),
            ),
        )
    }
}

/// `recompose_quotient_from_chunks` of p3-uni-stark, for the cosets that `split_domains` of p3-commit
/// makes of the coset of order `2^log_quotient` shifted by the generator: the sum of the lifted chunks,
/// each times its weight. The outside function panics on a chunk that has not two elements, on more
/// chunks than cosets, and beyond the largest subgroup.
#[verifier::external_body]
fn recompose_quotient(
    log_quotient: usize,
    log_chunks: usize,
    num_chunks: usize,
    chunks: &Vec<Vec<Challenge>>,
    zeta: Challenge,
) -> (r: Challenge)
    requires
        log_chunks <= log_quotient <= 32,
        num_chunks == pow2(log_chunks as nat),
        chunks.len() <= num_chunks,
        forall|i: int| 0 <= i < chunks.len() ==> (#[trigger] chunks@[i]).len() == 2,
    ensures
        r@ == recomposed(
            zeta@,
            log_quotient as int,
            log_chunks as nat,
            chunks@,
            chunks@.len(),
        ),
        ecanonical(r),
{
    let d = TwoAdicMultiplicativeCoset::new(Goldilocks::GENERATOR, log_quotient).unwrap();
    let pair = |x: &Challenge| Pair::new([x.c0, x.c1].map(Goldilocks::new));
    let c: Vec<Vec<Pair>> = chunks.iter().map(|v| v.iter().map(pair).collect()).collect();
    let y = recompose_quotient_from_chunks::<PlainConfig>(
        &d.split_domains(num_chunks),
        &c,
        pair(&zeta),
    );
    let y: &[Goldilocks] = y.as_basis_coefficients_slice();
    Challenge { c0: y[0].as_canonical_u64(), c1: y[1].as_canonical_u64() }
}

/// The constraints folded with the combination challenge; `None` where one reads a column that is not
/// opened.
pub fn fold_constraints(
    cs: &Vec<Constraint>,
    at: &OpenedRows,
    s: &Selectors,
    alpha: Challenge,
) -> (r: Option<Challenge>)
    ensures
        match r {
            Some(v) => {
                &&& all_read(cs@, at.env())
                &&& v@ == folded_z(gated_values(cs@, at.env(), *s), alpha@, cs@.len())
            },
            None => !all_read(cs@, at.env()),
        },
{
    let ghost values = gated_values(cs@, at.env(), *s);
    let n: usize = cs.len();
    let mut folded: Challenge = ezero();
    for i in 0..n
        invariant
            n == cs.len(),
            values == gated_values(cs@, at.env(), *s),
            folded@ == folded_z(values, alpha@, i as nat),
            forall|j: int| 0 <= j < i ==> reads((#[trigger] cs@[j]).expr, at.env()),
    {
        let v: Challenge = match eval_symbolic_native(&cs[i].expr, at) {
            None => {
                assert(!reads(cs@[i as int].expr, at.env()));
                return None;
            },
            Some(v) => v,
        };
        let w: Challenge = match cs[i].gate {
            Gate::Always => v,
            Gate::First => emul(s.is_first, v),
            Gate::Last => emul(s.is_last, v),
            Gate::Transition => emul(s.is_transition, v),
        };
        assert(w@ == values[i as int]);
        let ghost before = folded@;
        let next: Challenge = eadd(emul(folded, alpha), w);
        proof {
            lemma_ered(zmul(before, alpha@));
            crate::field::lemma_econg_add(
                ered(zmul(before, alpha@)),
                zmul(before, alpha@),
                w@,
                w@,
            );
        }
        folded = next;
    }
    Some(folded)
}

/// The constraints hold at the out-of-domain point: folded and divided by the vanishing polynomial they
/// are the quotient.
pub open spec fn ood_holds(
    cs: Seq<Constraint>,
    env: ExtEnv,
    s: Selectors,
    alpha: (int, int),
    quotient: (int, int),
) -> bool {
    econg(zmul(folded_z(gated_values(cs, env, s), alpha, cs.len()), s.inv_van@), quotient)
}

/// What the openings of a proof show at the out-of-domain point, where the trace is opened at the next
/// point too and there are no periodic columns.
pub open spec fn opened_env(p: PlainProof, pvs: Seq<int>) -> ExtEnv {
    ExtEnv {
        cur: views(p.trace_local@),
        nxt: views(p.trace_next->0@),
        per: Seq::empty(),
        pis: pvs,
    }
}

/// The constraints of the constant column hold at the point of a proof whose trace domain has order
/// `2^base` and whose quotient domain, of order `2^log_quotient`, is split into `2^log_chunks` chunks.
pub open spec fn const_holds(
    p: PlainProof,
    pvs: Seq<int>,
    alpha: (int, int),
    zeta: (int, int),
    base: int,
    log_quotient: int,
    log_chunks: nat,
) -> bool {
    let chunks = p.quotient_chunks@;
    forall|s: Selectors| #[trigger]
        s.of(zeta, base) ==> ood_holds(
            const_constraints(),
            opened_env(p, pvs),
            s,
            alpha,
            recomposed(zeta, log_quotient, log_chunks, chunks, chunks.len()),
        )
}

/// What the constraints of a proof are held against at its out-of-domain point: the selectors of the
/// trace domain, of order `2^base`, and the quotient, whose domain of order `2^log_quotient` is split
/// into `2^log_chunks` chunks.
pub fn epilogue_at(
    p: &PlainProof,
    zeta: Challenge,
    base: usize,
    log_quotient: usize,
    log_chunks: usize,
    num_chunks: usize,
) -> (r: (Selectors, Challenge))
    requires
        base <= 32,
        log_chunks <= log_quotient <= 32,
        num_chunks == pow2(log_chunks as nat),
        epow2k(zeta@, base as nat) != (1int, 0int),
        p.quotient_chunks.len() <= num_chunks,
        forall|i: int|
            0 <= i < p.quotient_chunks.len() ==> (#[trigger] p.quotient_chunks@[i]).len() == 2,
    ensures
        r.0.of(zeta@, base as int),
        r.1@ == recomposed(
            zeta@,
            log_quotient as int,
            log_chunks as nat,
            p.quotient_chunks@,
            p.quotient_chunks@.len(),
        ),
{
    let s: Selectors = selectors_at(zeta, base);
    let quotient: Challenge = recompose_quotient(
        log_quotient,
        log_chunks,
        num_chunks,
        &p.quotient_chunks,
        zeta,
    );
    (s, quotient)
}

/// Whether the constraints of the constant column hold at the point of a proof.
fn const_check(
    p: &PlainProof,
    pvs: &[u64],
    alpha: Challenge,
    zeta: Challenge,
    base: usize,
    log_quotient: usize,
    log_chunks: usize,
    num_chunks: usize,
) -> (r: bool)
    requires
        base <= 32,
        log_chunks <= log_quotient <= 32,
        num_chunks == pow2(log_chunks as nat),
        epow2k(zeta@, base as nat) != (1int, 0int),
        const_opened(*p, pvs@.len() as int, num_chunks as int),
        p.trace_next is Some,
    ensures
        r == const_holds(
            *p,
            ints(pvs@),
            alpha@,
            zeta@,
            base as int,
            log_quotient as int,
            log_chunks as nat,
        ),
{
    let (s, quotient) = epilogue_at(p, zeta, base, log_quotient, log_chunks, num_chunks);
    let none: Vec<Challenge> = Vec::new();
    let next: &Vec<Challenge> = match &p.trace_next {
        Some(v) => v,
        None => &none,
    };
    let rows: OpenedRows = OpenedRows {
        local: &p.trace_local,
        next,
        periodic: &none,
        publics: pvs,
    };
    let cs: Vec<Constraint> = ConstAir.eval();
    let ghost env = opened_env(*p, ints(pvs@));
    proof {
        assert(rows.env() =~= env);
        assert forall|i: int| 0 <= i < cs.len() implies reads((#[trigger] cs@[i]).expr, env) by {
            reveal_with_fuel(reads, 3);
        }
    }
    match fold_constraints(&cs, &rows, &s, alpha) {
        None => false,
        Some(folded) => {
            let shown: Challenge = emul(folded, s.inv_van);
            let same: bool = eeq(shown, quotient);
            proof {
                lemma_ered(zmul(folded@, s.inv_van@));
                if same {
                    assert forall|t: Selectors| #[trigger]
                        t.of(zeta@, base as int) implies ood_holds(
                        const_constraints(),
                        env,
                        t,
                        alpha@,
                        quotient@,
                    ) by {
                        assert(gated_values(cs@, env, t) =~= gated_values(cs@, env, s));
                    }
                } else {
                    assert(s.of(zeta@, base as int));
                }
            }
            same
        },
    }
}

/// A proof opens what the constraints of the constant column read, and no more chunks than there are,
/// each of two elements.
pub open spec fn const_opened(p: PlainProof, values: int, num_chunks: int) -> bool {
    &&& values > 0
    &&& p.trace_local.len() > 0
    &&& p.trace_next is Some ==> p.trace_next->0.len() > 0
    &&& p.quotient_chunks.len() <= num_chunks
    &&& forall|i: int|
        0 <= i < p.quotient_chunks.len() ==> (#[trigger] p.quotient_chunks@[i]).len() == 2
}

/// The outcome of a proof of the constant column whose rounds were laid out.
pub open spec fn const_outcome(
    o: OpeningRounds,
    params: FriParams,
    p: PlainProof,
    pvs: Seq<int>,
) -> Result<(), ProofError> {
    let d = after_ext(before_zeta(p, p.degree_bits as int, pvs, false));
    let run = fri_run(observed_coms(d, o.coms@, o.coms@.len()), params, p.fri, o.coms@);
    match run.fail {
        Some(e) => Err(ProofError::Fri(e)),
        None => if const_holds(
            p,
            pvs,
            o.alpha@,
            o.zeta@,
            p.degree_bits as int,
            p.degree_bits as int,
            0,
        ) {
            Ok(())
        } else {
            Err(ProofError::OodEvaluationMismatch)
        },
    }
}

/// The rounds of a proof of the constant column.
pub open spec fn const_rounds(o: OpeningRounds, p: PlainProof, pvs: Seq<int>) -> bool {
    let db = p.degree_bits as int;
    &&& o.alpha@ == sampled_ext(before_alpha(p, db, pvs))
    &&& o.zeta@ == sampled_ext(before_zeta(p, db, pvs, false))
    &&& o.zeta_next@ == ered(zscale(o.zeta@, two_adic_gen(db)))
    &&& rounds_are(o.coms@, p, o.zeta, o.zeta_next, true, 1, false)
}

/// Checks a proof of the constant column under given parameters of the low-degree test: its openings, and
/// its constraints at the out-of-domain point.
pub fn verify_proof_with(params: &FriParams, p: &PlainProof, pvs: &[u64]) -> (r: Result<(), ProofError>)
    requires
        all_caps_ok(*p, false),
        p.degree_bits <= TWO_ADICITY ==> {
            &&& p.degree_bits + params.log_blowup <= 32
            &&& 2 * pow2((p.degree_bits + params.log_blowup) as nat) <= usize::MAX
        },
        255 * arities_z(p.fri).len() + params.log_blowup + params.log_final_poly_len <= usize::MAX,
        pow2(params.log_final_poly_len as nat) <= usize::MAX,
        pow2(params.commit_pow_bits as nat) <= P,
        pow2(params.query_pow_bits as nat) <= P,
        const_opened(*p, pvs@.len() as int, 1),
    ensures
        ({
            let db = p.degree_bits as int;
            let z = ints(pvs@);
            let early = rounds_fail(*p, db, z, true, false);
            if db > TWO_ADICITY {
                r == Err::<(), ProofError>(
                    ProofError::DegreeBitsTooLarge { maximum: TWO_ADICITY, got: p.degree_bits },
                )
            } else if early is Some {
                r == Err::<(), ProofError>(early->0)
            } else {
                exists|o: OpeningRounds| #[trigger]
                    const_rounds(o, *p, z) && r == const_outcome(o, *params, *p, z)
            }
        }),
{
    let ghost z = ints(pvs@);
    let o: OpeningRounds = match verify_openings(params, p, pvs, true, 1) {
        Err(e) => {
            proof {
                let db = p.degree_bits as int;
                if db <= TWO_ADICITY && rounds_fail(*p, db, z, true, false) is None {
                    let d = after_ext(before_zeta(*p, db, z, false));
                    let o = choose|o: OpeningRounds|
                        {
                            &&& o.alpha@ == sampled_ext(before_alpha(*p, db, z))
                            &&& o.zeta@ == sampled_ext(before_zeta(*p, db, z, false))
                            &&& o.zeta_next@ == ered(zscale(o.zeta@, two_adic_gen(db)))
                            &&& #[trigger] rounds_are(
                                o.coms@,
                                *p,
                                o.zeta,
                                o.zeta_next,
                                true,
                                1,
                                false,
                            )
                            &&& e is Fri
                            &&& fri_run(
                                observed_coms(d, o.coms@, o.coms@.len()),
                                *params,
                                p.fri,
                                o.coms@,
                            ).fail == Some(e->Fri_0)
                        };
                    assert(const_rounds(o, *p, z));
                }
            }
            return Err(e);
        },
        Ok(o) => o,
    };
    assert(const_rounds(o, *p, z));
    proof {
        vstd::arithmetic::power2::lemma2_to64();
    }
    if const_check(p, pvs, o.alpha, o.zeta, p.degree_bits, p.degree_bits, 0, 1) {
        Ok(())
    } else {
        Err(ProofError::OodEvaluationMismatch)
    }
}

/// The low-degree test that proofs of the constant column are held to: a blowup of sixteen, folds of up to
/// sixteen, down to a constant, with the queries, the grinding and the caps of production.
pub open spec fn frozen() -> FriParams {
    FriParams {
        log_blowup: LOG_BLOWUP,
        log_final_poly_len: 0,
        max_log_arity: 4,
        num_queries: NUM_QUERIES,
        commit_pow_bits: 0,
        query_pow_bits: 16,
        cap_height: CAP_HEIGHT,
    }
}

/// Checks a proof of the constant column: its openings, and its constraints at the out-of-domain point.
/// The low-degree test is the frozen one, whatever the proof was made with: a proof with another number
/// of queries is refused, one with smaller folds is not.
pub fn verify_proof(p: &PlainProof, pvs: &[u64]) -> (r: Result<(), ProofError>)
    requires
        all_caps_ok(*p, false),
        p.degree_bits <= TWO_ADICITY ==> {
            &&& p.degree_bits + LOG_BLOWUP <= 32
            &&& 2 * pow2((p.degree_bits + LOG_BLOWUP) as nat) <= usize::MAX
        },
        255 * arities_z(p.fri).len() + LOG_BLOWUP <= usize::MAX,
        const_opened(*p, pvs@.len() as int, 1),
    ensures
        ({
            let db = p.degree_bits as int;
            let z = ints(pvs@);
            let early = rounds_fail(*p, db, z, true, false);
            if db > TWO_ADICITY {
                r == Err::<(), ProofError>(
                    ProofError::DegreeBitsTooLarge { maximum: TWO_ADICITY, got: p.degree_bits },
                )
            } else if early is Some {
                r == Err::<(), ProofError>(early->0)
            } else {
                exists|o: OpeningRounds| #[trigger]
                    const_rounds(o, *p, z) && r == const_outcome(o, frozen(), *p, z)
            }
        }),
        r is Ok && p.fri.commit_pow_witnesses.len() >= p.fri.commit_phase_commits.len() ==> {
            let s = script(*p, p.degree_bits as int, ints(pvs@));
            exists|o: OpeningRounds| #[trigger]
                const_rounds(o, *p, ints(pvs@)) && forall|q: nat|
                    q < p.fri.query_proofs.len() ==> query_fail(
                        frozen(),
                        p.fri,
                        o.coms@,
                        p.fri.query_proofs@[q as int],
                        sampled(#[trigger] at_index(s, q)) % (pow2(
                            (p.degree_bits + LOG_BLOWUP) as nat,
                        ) as int),
                        sampled_ext(at_alpha_fri(s)),
                        Seq::new(
                            p.fri.commit_phase_commits@.len(),
                            |r: int| sampled_ext(at_beta(s, r as nat)),
                        ),
                        p.degree_bits + LOG_BLOWUP,
                    ) is None
        },
{
    let params: FriParams = FriParams {
        log_blowup: LOG_BLOWUP,
        log_final_poly_len: 0,
        max_log_arity: 4,
        num_queries: NUM_QUERIES,
        commit_pow_bits: 0,
        query_pow_bits: 16,
        cap_height: CAP_HEIGHT,
    };
    proof {
        vstd::arithmetic::power2::lemma2_to64();
    }
    let r: Result<(), ProofError> = verify_proof_with(&params, p, pvs);
    proof {
        let z = ints(pvs@);
        if r is Ok && p.fri.commit_pow_witnesses.len() >= p.fri.commit_phase_commits.len() {
            let o = choose|o: OpeningRounds| #[trigger]
                const_rounds(o, *p, z) && r == const_outcome(o, params, *p, z);
            law_verified_indices(o, params, *p, z);
        }
    }
    r
}

/// The outcome of a hiding proof of the constant column, given whether its openings were accepted.
pub open spec fn hiding_outcome(
    p: PlainProof,
    pvs: Seq<int>,
    max_log_degree: int,
    opened: bool,
) -> Result<(), ProofError> {
    let db = p.degree_bits;
    let base = db - 1;
    let early = rounds_fail(p, base, pvs, true, true);
    if db < 1 {
        Err(ProofError::DegreeBitsTooSmall { minimum: 1, got: db })
    } else if db > max_log_degree {
        Err(ProofError::DegreeBitsTooLarge { maximum: max_log_degree as usize, got: db })
    } else if early is Some {
        Err(early->0)
    } else if !opened {
        Err(ProofError::OpeningsRejected)
    } else if const_holds(
        p,
        pvs,
        sampled_ext(before_alpha(p, base, pvs)),
        sampled_ext(before_zeta(p, base, pvs, true)),
        base,
        db + 1,
        2,
    ) {
        Ok(())
    } else {
        Err(ProofError::OodEvaluationMismatch)
    }
}

/// Checks a hiding proof of the constant column but for its openings, of which `opened` says whether
/// they were accepted. The quotient domain is twice as large as that of the randomised trace, and
/// split into four chunks.
pub fn reverify_opened(
    p: &PlainProof,
    pvs: &[u64],
    max_log_degree: usize,
    opened: bool,
) -> (r: Result<(), ProofError>)
    requires
        p.degree_bits <= max_log_degree ==> p.degree_bits < TWO_ADICITY,
        const_opened(*p, pvs@.len() as int, 4),
    ensures
        r == hiding_outcome(*p, ints(pvs@), max_log_degree as int, opened),
{
    let base: usize = match validate_degree_bits(p.degree_bits, 1, max_log_degree) {
        Err(e) => {
            return Err(e);
        },
        Ok(b) => b,
    };
    let mut c: Challenger = Challenger::new();
    let o: OpeningRounds = match opening_rounds(p, &mut c, base, pvs, true, 4, true) {
        Err(e) => {
            return Err(e);
        },
        Ok(o) => o,
    };
    if !opened {
        return Err(ProofError::OpeningsRejected);
    }
    proof {
        vstd::arithmetic::power2::lemma2_to64();
    }
    if const_check(p, pvs, o.alpha, o.zeta, base, p.degree_bits + 1, 2, 4) {
        Ok(())
    } else {
        Err(ProofError::OodEvaluationMismatch)
    }
}

/// Checks a hiding proof of the constant column: the commitment scheme checks its openings, and the
/// rest is checked as above.
pub fn reverify(
    params: &FriParams,
    p: &PlainProof,
    pvs: &[u64],
    max_log_degree: usize,
) -> (r: Result<(), ProofError>)
    requires
        p.degree_bits <= max_log_degree ==> {
            &&& p.degree_bits < TWO_ADICITY
            &&& openable(*params, *p)
        },
        const_opened(*p, pvs@.len() as int, 4),
    ensures
        r == hiding_outcome(
            *p,
            ints(pvs@),
            max_log_degree as int,
            hiding_opened(*params, *p, ints(pvs@), p.degree_bits - 1, 4),
        ),
{
    let base: usize = match validate_degree_bits(p.degree_bits, 1, max_log_degree) {
        Err(e) => {
            return Err(e);
        },
        Ok(b) => b,
    };
    let mut c: Challenger = Challenger::new();
    let o: OpeningRounds = match opening_rounds(p, &mut c, base, pvs, true, 4, true) {
        Err(e) => {
            return Err(e);
        },
        Ok(o) => o,
    };
    if !check_openings(params, p, pvs, base, &o.coms, o.zeta, o.zeta_next, 4, &c) {
        return Err(ProofError::OpeningsRejected);
    }
    proof {
        vstd::arithmetic::power2::lemma2_to64();
    }
    if const_check(p, pvs, o.alpha, o.zeta, base, p.degree_bits + 1, 2, 4) {
        Ok(())
    } else {
        Err(ProofError::OodEvaluationMismatch)
    }
}

/// What a polynomial is evaluated on, as points of the extension.
pub open spec fn embedded(env: Env) -> ExtEnv {
    ExtEnv {
        cur: Seq::new(env.cur.len(), |i: int| (env.cur[i], 0int)),
        nxt: Seq::new(env.nxt.len(), |i: int| (env.nxt[i], 0int)),
        per: Seq::new(env.per.len(), |i: int| (env.per[i], 0int)),
        pis: env.pis,
    }
}

/// A polynomial has the same value over the extension as over the field, where what it reads is in the
/// field.
pub proof fn law_same_value(e: Expr, env: Env)
    requires
        reads(e, embedded(env)),
    ensures
        ext_value(e, embedded(env)) == (red(e.val(env)), 0int),
    decreases e,
{
    reveal_with_fuel(Expr::val, 2);
    crate::field::lemma_red_small(0);
    match e {
        Expr::Sum(a, b) => {
            law_same_value(*a, env);
            law_same_value(*b, env);
            lemma_red_pair(a.val(env), b.val(env));
        },
        Expr::Difference(a, b) => {
            law_same_value(*a, env);
            law_same_value(*b, env);
            lemma_red_pair(a.val(env), b.val(env));
        },
        Expr::Product(a, b) => {
            law_same_value(*a, env);
            law_same_value(*b, env);
            lemma_red_pair(a.val(env), b.val(env));
            let (x, y) = (red(a.val(env)), red(b.val(env)));
            assert(zmul((x, 0int), (y, 0int)) == (x * y, 0int)) by {
                assert(7 * (0 * 0) == 0int && x * 0 == 0 && 0 * y == 0) by (nonlinear_arith);
            }
        },
        _ => {},
    }
}

proof fn lemma_red_pair(a: int, b: int)
    ensures
        red(red(a) + red(b)) == red(a + b),
        red(red(a) - red(b)) == red(a - b),
        red(red(a) * red(b)) == red(a * b),
{
    crate::field::lemma_red_red(a);
    crate::field::lemma_red_red(b);
    crate::field::lemma_cong_add(red(a), a, red(b), b);
    crate::field::lemma_cong_sub(red(a), a, red(b), b);
    crate::field::lemma_cong_mul(red(a), a, red(b), b);
}

} // verus!
