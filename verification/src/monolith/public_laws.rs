//! A trace that meets the constraints does so for one set of public values.
use super::fused::{epilogue_z, zsquares, MonolithAir};
use super::fused_laws::{
    law_monolith_checked, law_monolith_opened, law_monolith_queries, m_accepted, m_head,
    m_transcript, seg_pub,
};
use super::phase4a::{law_phase4a_sound, Phase4AAir};
use super::sponge::{squeezed, trace_inputs};
use crate::cols::np2;
use crate::expr::{pair, row_env, satisfied, Env};
use crate::field::{
    cong, econg, finv_z, lemma_cong_diff, lemma_econg_add, lemma_econg_mul, lemma_econg_sub,
    lemma_red_small, red, two_adic_gen, zadd, zmul, zsub, W_EXT,
};
use crate::fri_merkle::canonical_cells;
use crate::poseidon2::perm;
use crate::prime::law_no_zero_divisors;
use vstd::prelude::*;

verus! {

/// Two lists of public values agree on challenge `j`.
pub open spec fn same_pair(pv: Seq<int>, other: Seq<int>, j: int) -> bool {
    econg(pair(pv, 2 * j), pair(other, 2 * j))
}

/// Two lists of public values agree at `i`.
pub open spec fn same_at(pv: Seq<int>, other: Seq<int>, i: int) -> bool {
    cong(pv[i], other[i])
}

/// A trace has one set of public values: values that differ from those it meets the constraints with,
/// in a challenge, in an index element or in the evaluation, are refused.
pub proof fn law_phase4a_publics(air: Phase4AAir, t: Seq<Seq<int>>, pv: Seq<int>, other: Seq<int>)
    requires
        air.fits(),
        air.rounds_z() <= 7,
        air.transcript().wf(),
        air.n_queries > 0,
        t.len() == air.height_z(),
        canonical_cells(t, 8),
        satisfied(|env: Env| air.polys(env), t, air.cols_z(), pv),
        satisfied(|env: Env| air.polys(env), t, air.cols_z(), other),
    ensures
        forall|j: int| 0 <= j < air.nb_z() ==> #[trigger] same_pair(pv, other, j),
        forall|i: int|
            2 * air.nb_z() <= i < 2 * air.nb_z() + air.ni_z() ==> #[trigger] same_at(pv, other, i),
        econg(
            pair(pv, 2 * air.nb_z() + air.ni_z()),
            pair(other, 2 * air.nb_z() + air.ni_z()),
        ),
{
    law_phase4a_sound(air, t, pv, 0);
    law_phase4a_sound(air, t, other, 0);
    let inputs = trace_inputs(t, np2(air.counts.len() as int) as nat);
    assert forall|j: int| 0 <= j < air.nb_z() implies #[trigger] same_pair(pv, other, j) by {
        assert(squeezed(perm(inputs[air.transcript().binds@[j] as int]), pair(pv, 2 * j)));
        assert(squeezed(perm(inputs[air.transcript().binds@[j] as int]), pair(other, 2 * j)));
    }
    assert forall|i: int|
        2 * air.nb_z() <= i < 2 * air.nb_z() + air.ni_z() implies #[trigger] same_at(
        pv,
        other,
        i,
    ) by {
        let j = i - 2 * air.nb_z();
        let b = air.transcript().index_binds@[j];
        assert(cong(perm(inputs[b.0 as int])[b.1 as int], pv[2 * air.nb_z() + j]));
        assert(cong(perm(inputs[b.0 as int])[b.1 as int], other[2 * air.nb_z() + j]));
    }
}

/// A trace has one set of public values: values that differ from those it meets the constraints with,
/// in a challenge, in an index element, in the evaluation or in an entry of a cap, are refused.
pub proof fn law_monolith_publics(air: MonolithAir, t: Seq<Seq<int>>, pv: Seq<int>, other: Seq<int>)
    requires
        m_accepted(air, t, pv),
        m_accepted(air, t, other),
        air.n_queries > 0,
    ensures
        forall|j: int| 0 <= j < air.nb_z() ==> #[trigger] same_pair(pv, other, j),
        forall|i: int|
            2 * air.nb_z() <= i < 2 * air.nb_z() + air.ni_z() ==> #[trigger] same_at(pv, other, i),
        econg(pair(pv, air.cap_z() - 2), pair(other, air.cap_z() - 2)),
        forall|k: int, i: int|
            #![trigger pv[air.cap_z() + seg_pub(k) + i]]
            0 <= k < 8 && 0 <= i < 4 ==> cong(
                pv[air.cap_z() + seg_pub(k) + i],
                other[air.cap_z() + seg_pub(k) + i],
            ),
{
    law_monolith_queries(air, t, pv, 0);
    law_monolith_queries(air, t, other, 0);
    let inputs = trace_inputs(t, np2(air.counts.len() as int) as nat);
    assert forall|j: int| 0 <= j < air.nb_z() implies #[trigger] same_pair(pv, other, j) by {
        let b = m_transcript(air).binds@[j] as int;
        assert(squeezed(perm(inputs[b]), pair(pv, 2 * j)));
        assert(squeezed(perm(inputs[b]), pair(other, 2 * j)));
    }
    assert forall|i: int|
        2 * air.nb_z() <= i < 2 * air.nb_z() + air.ni_z() implies #[trigger] same_at(
        pv,
        other,
        i,
    ) by {
        let j = i - 2 * air.nb_z();
        let b = m_transcript(air).index_binds@[j];
        assert(cong(perm(inputs[b.0 as int])[b.1 as int], pv[2 * air.nb_z() + j]));
        assert(cong(perm(inputs[b.0 as int])[b.1 as int], other[2 * air.nb_z() + j]));
    }
    assert forall|k: int, i: int|
        #![trigger pv[air.cap_z() + seg_pub(k) + i]]
        0 <= k < 8 && 0 <= i < 4 implies cong(
        pv[air.cap_z() + seg_pub(k) + i],
        other[air.cap_z() + seg_pub(k) + i],
    ) by {
        law_monolith_opened(air, t, pv, 0, k);
        law_monolith_opened(air, t, other, 0, k);
        assert(cong(pv[air.cap_z() + seg_pub(k) + i], pv[air.cap_z() + seg_pub(k) + i]));
        assert(cong(other[air.cap_z() + seg_pub(k) + i], other[air.cap_z() + seg_pub(k) + i]));
    }
}

/// Squaring keeps congruence.
proof fn lemma_zsquares_cong(x: (int, int), y: (int, int), n: nat)
    requires
        econg(x, y),
    ensures
        econg(zsquares(x, n), zsquares(y, n)),
    decreases n,
{
    if n > 0 {
        let (a, b) = (zsquares(x, (n - 1) as nat), zsquares(y, (n - 1) as nat));
        lemma_zsquares_cong(x, y, (n - 1) as nat);
        lemma_econg_mul(a, b, a, b);
    }
}

/// The check at the out-of-domain point keeps congruence of the challenges.
proof fn lemma_epilogue_cong(env: Env, other: Env, pz: int, at: int, g_inv: int)
    requires
        env.cur == other.cur,
        econg(pair(env.pis, 0), pair(other.pis, 0)),
        econg(pair(env.pis, 2), pair(other.pis, 2)),
        env.pis[at] == other.pis[at],
    ensures
        econg(epilogue_z(env, pz, at, g_inv), epilogue_z(other, pz, at, g_inv)),
{
    let one = (1int, 0int);
    let gi = (g_inv, 0int);
    let (a, b) = (pair(env.pis, 0), pair(other.pis, 0));
    let (x, y) = (pair(env.pis, 2), pair(other.pis, 2));
    let (sx, sy) = (zsquares(x, 6), zsquares(y, 6));
    lemma_zsquares_cong(x, y, 6);
    lemma_econg_sub(sx, sy, one, one);
    lemma_econg_sub(x, y, one, one);
    lemma_econg_sub(x, y, gi, gi);
    let (hx, hy) = (zsub(sx, one), zsub(sy, one));
    let (fx, fy) = (zsub(x, one), zsub(y, one));
    let (lx, ly) = (zsub(x, gi), zsub(y, gi));
    let local = pair(env.cur, pz);
    let next = pair(env.cur, pz + 9);
    let (c0, c1) = (pair(env.cur, pz + 18), pair(env.cur, pz + 27));
    let quot = zadd(c0, ((W_EXT as int) * c1.1, c1.0));
    let u = zsub(local, (env.pis[at], 0int));
    let w = zsub(next, local);
    lemma_econg_mul(hx, hy, a, b);
    lemma_econg_mul(zmul(hx, a), zmul(hy, b), u, u);
    lemma_econg_mul(lx, ly, fx, fy);
    lemma_econg_mul(zmul(lx, fx), zmul(ly, fy), w, w);
    lemma_econg_mul(hx, hy, fx, fy);
    lemma_econg_mul(zmul(hx, fx), zmul(hy, fy), quot, quot);
    let (t1, s1) = (zmul(zmul(hx, a), u), zmul(zmul(hy, b), u));
    let (t2, s2) = (zmul(zmul(lx, fx), w), zmul(zmul(ly, fy), w));
    lemma_econg_add(t1, s1, t2, s2);
    lemma_econg_sub(
        zadd(t1, t2),
        zadd(s1, s2),
        zmul(zmul(hx, fx), quot),
        zmul(zmul(hy, fy), quot),
    );
}

/// What the first constraint of the inner proof is weighed with: the vanishing polynomial of the inner
/// trace domain at the out-of-domain point, times the combination challenge.
pub open spec fn start_weight(pv: Seq<int>) -> (int, int) {
    zmul(zsub(zsquares(pair(pv, 2), 6), (1int, 0int)), pair(pv, 0))
}

/// A trace has one public value of the inner proof, wherever the first constraint is weighed with
/// anything but zero: another one is refused.
pub proof fn law_monolith_inner_public(
    air: MonolithAir,
    t: Seq<Seq<int>>,
    pv: Seq<int>,
    other: Seq<int>,
)
    requires
        m_accepted(air, t, pv),
        m_accepted(air, t, other),
        air.n_queries > 0,
        !econg(start_weight(pv), (0int, 0int)),
    ensures
        cong(pv[air.cap_z() + 8], other[air.cap_z() + 8]),
{
    let at = air.cap_z() + 8;
    let g = finv_z(two_adic_gen(6));
    let h = m_head(air, 0);
    law_monolith_publics(air, t, pv, other);
    law_monolith_checked(air, t, pv, 0);
    law_monolith_checked(air, t, other, 0);
    assert(air.nb_z() == 9) by {
        reveal(m_accepted);
    }
    assert(econg(pair(pv, 0), pair(other, 0)) && econg(pair(pv, 2), pair(other, 2))) by {
        assert(same_pair(pv, other, 0));
        assert(same_pair(pv, other, 1));
    }
    let e = row_env(t, air.cols_z(), pv, h);
    let f = row_env(t, air.cols_z(), other, h);
    let (v, o) = (pv[at], other[at]);
    let pis = Seq::new(
        (at + 1) as nat,
        |i: int|
            if i == at {
                o
            } else {
                pv[i]
            },
    );
    let mixed = Env { pis, ..e };
    assert(at >= 4);
    assert(pair(mixed.pis, 0) == pair(pv, 0) && pair(mixed.pis, 2) == pair(pv, 2));
    lemma_epilogue_cong(mixed, f, 33, at, g);
    let k = start_weight(pv);
    let (x, y) = (epilogue_z(e, 33, at, g), epilogue_z(mixed, 33, at, g));
    let local = pair(e.cur, 33);
    let d = o - v;
    assert(econg(zsub(x, y), (0int, 0int))) by {
        lemma_econg_sub(x, (0int, 0int), y, (0int, 0int));
    }
    assert(zsub(x, y) == (k.0 * d, k.1 * d)) by {
        let a = zsub(local, (v, 0int));
        let b = zsub(local, (o, 0int));
        assert(k.0 * a.0 - k.0 * b.0 == k.0 * d) by (nonlinear_arith)
            requires
                a.0 - b.0 == d,
        ;
        assert(k.1 * a.0 - k.1 * b.0 == k.1 * d) by (nonlinear_arith)
            requires
                a.0 - b.0 == d,
        ;
        assert(a.1 == b.1);
    }
    lemma_red_small(0);
    if red(d) != 0 {
        law_no_zero_divisors(k.0, d);
        law_no_zero_divisors(k.1, d);
        assert(false);
    }
    lemma_cong_diff(o, v);
}

} // verus!
