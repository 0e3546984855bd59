//! The check of the constraints of the constant column, without its divisions.
use crate::challenger::views;
use crate::epilogue::{
    chunk_weight, const_holds, ext_value, folded_z, gated_values, lemma_off_domain, lifted, ood_holds,
    opened_env, recomposed, to_last, vanishing, Selectors,
};
use crate::field::{
    econg, einv_z, ered, finv_z, generators, is_einverse, lemma_econg_add, lemma_econg_mul,
    lemma_econg_sub, lemma_einv, lemma_ered, lemma_finv, lemma_red_bound, lemma_red_small,
    lemma_zmul_assoc, lemma_zmul_comm, two_adic_gen, zadd, zmul, zsub, Challenge, P,
};
use crate::fri_query::epow2k;
use crate::monolith::fused::zsquares;
use crate::native_verify::const_constraints;
use crate::plain_proof::PlainProof;
use crate::prime::{law_einverse_exists, law_inverse_exists};
use vstd::prelude::*;

verus! {

/// An element with canonical coefficients.
spec fn element(a: (int, int)) -> Challenge {
    Challenge { c0: a.0 as u64, c1: a.1 as u64 }
}

proof fn lemma_element(a: (int, int))
    ensures
        element(ered(a))@ == ered(a),
{
    lemma_red_bound(a.0);
    lemma_red_bound(a.1);
}

/// The selectors at a point off the subgroup, and the inverses they are made of.
proof fn lemma_selectors(x: (int, int), k: nat) -> (s: Selectors)
    requires
        generators(),
        k <= 32,
        epow2k(x, k) != (1int, 0int),
    ensures
        s.of(x, k as int),
        is_einverse(ered(zsub(x, (1int, 0int))), einv_z(ered(zsub(x, (1int, 0int))))),
        is_einverse(vanishing(x, k), einv_z(vanishing(x, k))),
{
    let g = two_adic_gen(k as int);
    assert(0 < g < P);
    lemma_red_small(g);
    let h = law_inverse_exists(g);
    lemma_finv(g, h);
    lemma_off_domain(x, k, h);
    let (v, d, l) = (vanishing(x, k), ered(zsub(x, (1int, 0int))), to_last(x, k as int));
    lemma_ered(zsub(epow2k(x, k), (1int, 0int)));
    lemma_ered(zsub(x, (1int, 0int)));
    lemma_ered(zsub(x, (h, 0int)));
    let iv = law_einverse_exists(v);
    lemma_einv(v, iv);
    let id = law_einverse_exists(d);
    lemma_einv(d, id);
    let s = Selectors {
        is_first: element(ered(zmul(v, einv_z(d)))),
        is_last: element(ered(zmul(v, einv_z(l)))),
        is_transition: element(l),
        inv_van: element(iv),
    };
    lemma_element(zmul(v, einv_z(d)));
    lemma_element(zmul(v, einv_z(l)));
    lemma_element(zsub(x, (h, 0int)));
    lemma_element(iv);
    s
}

proof fn lemma_zmul_add(a: (int, int), b: (int, int), c: (int, int))
    ensures
        zmul(zadd(a, b), c) == zadd(zmul(a, c), zmul(b, c)),
{
    let ((a0, a1), (b0, b1), (c0, c1)) = (a, b, c);
    assert((a0 + b0) * c0 == a0 * c0 + b0 * c0) by (nonlinear_arith);
    assert((a1 + b1) * c1 == a1 * c1 + b1 * c1) by (nonlinear_arith);
    assert((a0 + b0) * c1 == a0 * c1 + b0 * c1) by (nonlinear_arith);
    assert((a1 + b1) * c0 == a1 * c0 + b1 * c0) by (nonlinear_arith);
}

proof fn lemma_zmul_one(a: (int, int))
    ensures
        zmul(a, (1int, 0int)) == a,
        zmul((1int, 0int), a) == a,
{
    let (a0, a1) = a;
    assert(a0 * 1 == a0 && a1 * 0 == 0 && a0 * 0 == 0 && a1 * 1 == a1) by (nonlinear_arith);
    lemma_zmul_comm(a, (1int, 0int));
}

/// The last two factors change places.
proof fn lemma_swap(a: (int, int), b: (int, int), c: (int, int))
    ensures
        zmul(zmul(a, b), c) == zmul(zmul(a, c), b),
{
    lemma_zmul_assoc(a, b, c);
    lemma_zmul_comm(b, c);
    lemma_zmul_assoc(a, c, b);
}

proof fn lemma_econg_self(a: (int, int))
    ensures
        econg(a, a),
        econg(ered(a), a),
        econg(a, ered(a)),
{
    lemma_ered(a);
}

/// A quotient of folded constraints without its divisions.
proof fn lemma_cleared(
    z: (int, int),
    d: (int, int),
    i: (int, int),
    iv: (int, int),
    f: (int, int),
    t: (int, int),
    a: (int, int),
    u: (int, int),
    w: (int, int),
    q: (int, int),
)
    requires
        econg(f, zmul(z, i)),
        econg(zmul(d, i), (1int, 0int)),
        econg(zmul(z, iv), (1int, 0int)),
        econg(zmul(zadd(zmul(zmul(f, u), a), zmul(t, w)), iv), q),
    ensures
        econg(
            zsub(
                zadd(zmul(zmul(z, a), u), zmul(zmul(t, d), w)),
                zmul(zmul(z, d), q),
            ),
            (0int, 0int),
        ),
{
    let one = (1int, 0int);
    let x = zmul(zmul(f, u), a);
    let y = zmul(t, w);
    let s = zadd(x, y);
    let zd = zmul(z, d);
    let left = zmul(zmul(s, iv), zd);
    // The inverse of the vanishing polynomial cancels.
    assert(econg(left, zmul(s, d))) by {
        lemma_zmul_assoc(s, iv, zd);
        lemma_zmul_assoc(iv, z, d);
        lemma_zmul_comm(iv, z);
        assert(left == zmul(s, zmul(zmul(z, iv), d)));
        lemma_econg_self(d);
        lemma_econg_self(s);
        lemma_econg_mul(zmul(z, iv), one, d, d);
        lemma_zmul_one(d);
        lemma_econg_mul(s, s, zmul(zmul(z, iv), d), d);
    }
    assert(econg(left, zmul(zd, q))) by {
        lemma_econg_self(zd);
        lemma_econg_mul(zmul(s, iv), q, zd, zd);
        lemma_zmul_comm(q, zd);
    }
    // The selector of the first row takes the distance from it.
    assert(econg(zmul(x, d), zmul(zmul(z, a), u))) by {
        lemma_swap(zmul(f, u), a, d);
        lemma_swap(f, u, d);
        lemma_econg_self(d);
        lemma_econg_self(u);
        lemma_econg_self(a);
        lemma_econg_self(z);
        lemma_econg_mul(f, zmul(z, i), d, d);
        lemma_zmul_assoc(z, i, d);
        lemma_zmul_comm(i, d);
        lemma_econg_mul(z, z, zmul(d, i), one);
        lemma_zmul_one(z);
        lemma_econg_mul(zmul(f, d), z, u, u);
        lemma_econg_mul(zmul(zmul(f, d), u), zmul(z, u), a, a);
        lemma_swap(z, u, a);
    }
    assert(zmul(y, d) == zmul(zmul(t, d), w)) by {
        lemma_swap(t, w, d);
    }
    let sum = zadd(zmul(zmul(z, a), u), zmul(zmul(t, d), w));
    assert(econg(zmul(s, d), sum)) by {
        lemma_zmul_add(x, y, d);
        lemma_econg_self(zmul(y, d));
        lemma_econg_add(zmul(x, d), zmul(zmul(z, a), u), zmul(y, d), zmul(zmul(t, d), w));
    }
    assert(econg(sum, zmul(zd, q)));
    lemma_econg_self(zmul(zd, q));
    lemma_econg_sub(sum, zmul(zd, q), zmul(zd, q), zmul(zd, q));
}

/// Squaring with and without reductions.
pub proof fn lemma_squares(x: (int, int), k: nat)
    ensures
        econg(epow2k(x, k), zsquares(x, k)),
    decreases k,
{
    if k == 0 {
        lemma_econg_self(x);
    } else {
        let (a, b) = (epow2k(x, (k - 1) as nat), zsquares(x, (k - 1) as nat));
        lemma_squares(x, (k - 1) as nat);
        lemma_econg_mul(a, b, a, b);
        lemma_econg_self(zmul(a, a));
    }
}

/// What the constraints of the constant column leave at the out-of-domain point, without divisions:
/// the vanishing polynomial times the first, the distances from the last and the first row times the
/// second, and both times the quotient.
pub open spec fn const_rest(
    alpha: (int, int),
    zeta: (int, int),
    local: (int, int),
    next: (int, int),
    chunk: Seq<(int, int)>,
    value: int,
    k: nat,
) -> (int, int) {
    let zh = zsub(zsquares(zeta, k), (1int, 0int));
    let last = zsub(zeta, (finv_z(two_adic_gen(k as int)), 0int));
    let first = zsub(zeta, (1int, 0int));
    let quotient = zadd(chunk[0], zmul((0int, 1int), chunk[1]));
    zsub(
        zadd(
            zmul(zmul(zh, alpha), zsub(local, (value, 0int))),
            zmul(zmul(last, first), zsub(next, local)),
        ),
        zmul(zmul(zh, first), quotient),
    )
}

/// Where the constraints of the constant column hold at a point off the trace domain, nothing is left
/// of them there.
pub proof fn law_const_rest(
    p: PlainProof,
    pvs: Seq<int>,
    alpha: (int, int),
    zeta: (int, int),
    k: nat,
)
    requires
        generators(),
        k <= 32,
        epow2k(zeta, k) != (1int, 0int),
        p.trace_local.len() > 0,
        p.trace_next is Some,
        p.trace_next->0.len() > 0,
        p.quotient_chunks.len() == 1,
        p.quotient_chunks@[0].len() == 2,
        pvs.len() > 0,
        const_holds(p, pvs, alpha, zeta, k as int, k as int, 0),
    ensures
        econg(
            const_rest(
                alpha,
                zeta,
                p.trace_local@[0]@,
                p.trace_next->0@[0]@,
                views(p.quotient_chunks@[0]@),
                pvs[0],
                k,
            ),
            (0int, 0int),
        ),
{
    let s = lemma_selectors(zeta, k);
    let env = opened_env(p, pvs);
    let cs = const_constraints();
    let chunks = p.quotient_chunks@;
    let chunk = views(chunks[0]@);
    let (local, next, value) = (p.trace_local@[0]@, p.trace_next->0@[0]@, pvs[0]);
    let q = recomposed(zeta, k as int, 0, chunks, 1);
    assert(chunks.len() == 1);
    assert(ood_holds(cs, env, s, alpha, q));
    let (u, w) = (zsub(local, (value, 0int)), zsub(next, local));
    let (f, t) = (s.is_first@, s.is_transition@);
    let (ru, rw) = (ext_value(cs[0].expr, env), ext_value(cs[1].expr, env));
    let vs = gated_values(cs, env, s);
    let first = zsub(zeta, (1int, 0int));
    let last = zsub(zeta, (finv_z(two_adic_gen(k as int)), 0int));
    let zh = zsub(zsquares(zeta, k), (1int, 0int));
    let v = vanishing(zeta, k);
    let quotient = zadd(chunk[0], zmul((0int, 1int), chunk[1]));
    // The values of the constraints.
    assert(econg(ru, u) && econg(rw, w)) by {
        reveal_with_fuel(ext_value, 3);
        assert(env.cur[0] == local && env.nxt[0] == next && env.pis[0] == value);
        lemma_econg_self(local);
        lemma_econg_self(next);
        lemma_econg_self((value, 0int));
        lemma_econg_sub(ered(local), local, ered((value, 0int)), (value, 0int));
        lemma_econg_sub(ered(next), next, ered(local), local);
        lemma_econg_self(zsub(ered(local), ered((value, 0int))));
        lemma_econg_self(zsub(ered(next), ered(local)));
    }
    // The folded constraints.
    let folded = folded_z(vs, alpha, 2);
    let sum = zadd(zmul(zmul(f, u), alpha), zmul(t, w));
    assert(econg(folded, sum)) by {
        reveal_with_fuel(folded_z, 3);
        assert(vs[0] == ered(zmul(f, ru)) && vs[1] == ered(zmul(t, rw)));
        let a1 = folded_z(vs, alpha, 1);
        let zero = zmul((0int, 0int), alpha);
        assert(zero == (0int, 0int)) by {
            assert(0 * alpha.0 == 0 && 0 * alpha.1 == 0) by (nonlinear_arith);
        }
        assert(zadd(zero, vs[0]) == vs[0]);
        assert(a1 == ered(vs[0]));
        lemma_econg_self(f);
        lemma_econg_self(t);
        lemma_econg_self(alpha);
        lemma_econg_mul(f, f, ru, u);
        lemma_econg_mul(t, t, rw, w);
        lemma_econg_self(zmul(f, ru));
        lemma_econg_self(zmul(t, rw));
        lemma_econg_self(vs[0]);
        assert(econg(a1, zmul(f, u)));
        lemma_econg_mul(a1, zmul(f, u), alpha, alpha);
        lemma_econg_add(zmul(a1, alpha), zmul(zmul(f, u), alpha), vs[1], zmul(t, w));
        lemma_econg_self(zadd(zmul(a1, alpha), vs[1]));
    }
    // The quotient.
    assert(econg(q, quotient)) by {
        reveal_with_fuel(recomposed, 2);
        reveal_with_fuel(chunk_weight, 2);
        vstd::arithmetic::power2::lemma2_to64();
        let wt = chunk_weight(zeta, k as int, k, 0, 1);
        assert(wt == (1int, 0int));
        lemma_zmul_one(lifted(chunk));
        lemma_econg_self(quotient);
        let l = lifted(chunk);
        assert(zadd((0int, 0int), l) == l);
        lemma_econg_self(l);
    }
    let iv = s.inv_van@;
    let id = einv_z(ered(first));
    assert(econg(zmul(sum, iv), q)) by {
        lemma_econg_self(iv);
        lemma_econg_mul(folded, sum, iv, iv);
    }
    assert(econg(v, zh)) by {
        lemma_squares(zeta, k);
        lemma_econg_self((1int, 0int));
        lemma_econg_sub(epow2k(zeta, k), zsquares(zeta, k), (1int, 0int), (1int, 0int));
        lemma_econg_self(zsub(epow2k(zeta, k), (1int, 0int)));
    }
    lemma_econg_self(first);
    lemma_econg_self(last);
    lemma_econg_self(id);
    lemma_econg_self(iv);
    lemma_econg_self((1int, 0int));
    lemma_red_small(1);
    lemma_red_small(0);
    assert(econg(f, zmul(zh, id))) by {
        lemma_econg_mul(v, zh, id, id);
        lemma_econg_self(zmul(v, id));
    }
    assert(econg(zmul(first, id), (1int, 0int))) by {
        lemma_econg_mul(ered(first), first, id, id);
    }
    assert(econg(zmul(zh, iv), (1int, 0int))) by {
        lemma_econg_mul(v, zh, iv, iv);
    }
    lemma_econg_self(quotient);
    lemma_cleared(zh, first, id, iv, f, t, alpha, u, w, q);
    // The selector of the transition is reduced, and so is the quotient.
    let a = zmul(zmul(zh, alpha), u);
    let b = zmul(zmul(t, first), w);
    let b2 = zmul(zmul(last, first), w);
    let c = zmul(zmul(zh, first), q);
    let c2 = zmul(zmul(zh, first), quotient);
    lemma_econg_self(w);
    lemma_econg_mul(t, last, first, first);
    lemma_econg_mul(zmul(t, first), zmul(last, first), w, w);
    lemma_econg_self(zmul(zh, first));
    lemma_econg_mul(zmul(zh, first), zmul(zh, first), q, quotient);
    lemma_econg_self(a);
    lemma_econg_add(a, a, b, b2);
    lemma_econg_sub(zadd(a, b), zadd(a, b2), c, c2);
}

} // verus!
