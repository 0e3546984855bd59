//! Laws on the window of an inner proof and on the rows that it becomes.
use super::emit::{
    all_held, bare_row, hiding_source, inner_trace, plain_source, tr_z, SourceZ, WindowLayout,
};
use super::source::{SymbolicHidingInnerWindow, SymbolicInnerWindow};
use super::window::{
    bad_salts, chunk_accs, commit_caps, coords, padding_row, selectors_z, squares_z, wide_opening,
    wide_query, window_z, HidingWitness,
};
use crate::bits::lemma_shr;
use crate::epilogue::folded_z;
use crate::field::{ered, ints, red, zmul, Challenge};
use crate::merkle::{path_z, root_of, Digest};
use crate::mmcs::row_hash;
use crate::monolith::cells::zeros;
use crate::monolith::fused_trace::TileOpenings;
use crate::monolith::segment::{
    commit_leaf, commit_roots, group_cells, overlaid, overlaid_all, quot_leaf, random_leaf, rem_patches,
    root_cells, segment_z, trace_leaf, SegmentLayout,
};
use crate::monolith::sponge::ft_trace;
use crate::plain_proof::{cap_z, CommitOpening, PlainProof, QueryProof};
use crate::transcript::states;
use vstd::arithmetic::power2::{lemma_pow2_pos, pow2};
use vstd::prelude::*;

verus! {

proof fn lemma_pairs(o: Seq<CommitOpening>, n: nat)
    requires
        n <= o.len(),
    ensures
        wide_opening(o, n) is None <==> forall|i: int|
            0 <= i < n ==> (#[trigger] o[i]).log_arity == 1,
    decreases n,
{
    if n > 0 {
        lemma_pairs(o, (n - 1) as nat);
    }
}

/// The rounds of a query all fold a pair.
pub open spec fn folds_pairs(q: QueryProof) -> bool {
    forall|i: int|
        0 <= i < q.commit_phase_openings@.len() ==> (
        #[trigger] q.commit_phase_openings@[i]).log_arity == 1
}

/// The shape of a proof is taken exactly where every round of every query folds a pair.
pub proof fn law_binary_shape(q: Seq<QueryProof>, n: nat)
    requires
        n <= q.len(),
    ensures
        wide_query(q, n) is None <==> forall|k: int| 0 <= k < n ==> folds_pairs(#[trigger] q[k]),
    decreases n,
{
    if n > 0 {
        law_binary_shape(q, (n - 1) as nat);
        lemma_pairs(q[n - 1].commit_phase_openings@, q[n - 1].commit_phase_openings@.len());
        assert(folds_pairs(q[n - 1]) <==> wide_opening(
            q[n - 1].commit_phase_openings@,
            q[n - 1].commit_phase_openings@.len(),
        ) is None);
    }
}

/// The salts of a query are good exactly where each of them has four elements.
pub proof fn law_salt_lengths(q: QueryProof)
    ensures
        !bad_salts(q) <==> {
            &&& q.input_proof@[0].salts@[0].len() == 4
            &&& q.input_proof@[1].salts@[0].len() == 4
            &&& forall|i: int|
                0 <= i < q.input_proof@[2].salts@.len() ==> (
                #[trigger] q.input_proof@[2].salts@[i]).len() == 4
            &&& forall|i: int|
                0 <= i < q.commit_phase_openings@.len() ==> (
                #[trigger] q.commit_phase_openings@[i]).salts@[0].len() == 4
        },
{
}

/// The caps of the commit rounds stand one behind the other.
pub proof fn law_commit_caps(commits: Seq<Vec<Digest>>, n: nat)
    requires
        n < commits.len(),
    ensures
        commit_caps(commits, 0) == Seq::<int>::empty(),
        commit_caps(commits, n + 1) == commit_caps(commits, n) + cap_z(commits[n as int]@),
{
}

/// What stands in front of the caps in a window: every challenge with both its coordinates, every index
/// element, and the constant of the final polynomial.
pub proof fn law_window_front(
    p: PlainProof,
    challenges: Seq<(int, int)>,
    index_felts: Seq<int>,
    final0: (int, int),
    pvs: Seq<int>,
    periodic: Seq<(int, int)>,
    weights: Seq<(int, int)>,
    hiding: bool,
    i: int,
    q: int,
)
    requires
        0 <= i < challenges.len(),
        0 <= q < index_felts.len(),
    ensures
        ({
            let w = window_z(p, challenges, index_felts, final0, pvs, periodic, weights, hiding);
            let at = 2 * challenges.len();
            &&& w[2 * i] == challenges[i].0
            &&& w[2 * i + 1] == challenges[i].1
            &&& w[at + q] == index_felts[q]
            &&& w[(at + index_felts.len()) as int] == final0.0
            &&& w[(at + index_felts.len() + 1) as int] == final0.1
        }),
{
    let c = coords(challenges);
    assert(c.len() == 2 * challenges.len());
    assert(c[2 * i] == challenges[i].0);
    assert(c[2 * i + 1] == challenges[i].1);
}

/// What a window shows behind the constant of the final polynomial: the cap of the trace, that of the
/// quotient, the public values, the caps of the commit rounds, the periodic values, the weights, and the
/// random cap of a hiding proof.
pub proof fn law_window_parts(
    p: PlainProof,
    challenges: Seq<(int, int)>,
    index_felts: Seq<int>,
    final0: (int, int),
    pvs: Seq<int>,
    periodic: Seq<(int, int)>,
    weights: Seq<(int, int)>,
    hiding: bool,
)
    ensures
        ({
            let w = window_z(p, challenges, index_felts, final0, pvs, periodic, weights, hiding);
            let at = 2 * challenges.len() + index_felts.len() + 2;
            let trace = 4 * p.trace_cap.len();
            let quotient = 4 * p.quotient_cap.len();
            let commits = commit_caps(
                p.fri.commit_phase_commits@,
                p.fri.commit_phase_commits@.len(),
            );
            let behind = at + trace + quotient + pvs.len();
            let tail = behind + commits.len() + 2 * periodic.len() + 2 * weights.len();
            &&& w.subrange(at as int, at + trace) == cap_z(p.trace_cap@)
            &&& w.subrange(at + trace, at + trace + quotient) == cap_z(p.quotient_cap@)
            &&& w.subrange(at + trace + quotient, behind as int) == pvs
            &&& w.subrange(behind as int, (behind + commits.len()) as int) == commits
            &&& w.subrange(
                (behind + commits.len()) as int,
                (behind + commits.len() + 2 * periodic.len()) as int,
            ) == coords(periodic)
            &&& w.subrange(
                (behind + commits.len() + 2 * periodic.len()) as int,
                tail as int,
            ) == coords(weights)
            &&& hiding && p.random_cap is Some ==> w.skip(tail as int) == cap_z(p.random_cap->0@)
            &&& !hiding || p.random_cap is None ==> w.len() == tail
        }),
{
    let w = window_z(p, challenges, index_felts, final0, pvs, periodic, weights, hiding);
    let at = 2 * challenges.len() + index_felts.len() + 2;
    let trace = 4 * p.trace_cap.len();
    let quotient = 4 * p.quotient_cap.len();
    let commits = commit_caps(p.fri.commit_phase_commits@, p.fri.commit_phase_commits@.len());
    let behind = at + trace + quotient + pvs.len();
    let tail = behind + commits.len() + 2 * periodic.len() + 2 * weights.len();
    assert(w.subrange(at as int, at + trace) =~= cap_z(p.trace_cap@));
    assert(w.subrange(at + trace, at + trace + quotient) =~= cap_z(p.quotient_cap@));
    assert(w.subrange(at + trace + quotient, behind as int) =~= pvs);
    assert(w.subrange(behind as int, (behind + commits.len()) as int) =~= commits);
    assert(w.subrange(
        (behind + commits.len()) as int,
        (behind + commits.len() + 2 * periodic.len()) as int,
    ) =~= coords(periodic));
    assert(w.subrange((behind + commits.len() + 2 * periodic.len()) as int, tail as int) =~= coords(
        weights,
    ));
    if hiding && p.random_cap is Some {
        assert(w.skip(tail as int) =~= cap_z(p.random_cap->0@));
    }
}

/// The accumulators of the folded constraints: one behind every full chunk but the last.
pub proof fn law_chunk_accs(values: Seq<(int, int)>, alpha: (int, int), chunk: int, n: nat)
    requires
        chunk > 0,
    ensures
        chunk_accs(values, alpha, chunk, 0) == Seq::<(int, int)>::empty(),
        (n + 1) as int % chunk == 0 && n + 1 < values.len() ==> chunk_accs(values, alpha, chunk, n + 1)
            == chunk_accs(values, alpha, chunk, n).push(folded_z(values, alpha, n + 1)),
        !((n + 1) as int % chunk == 0 && n + 1 < values.len()) ==> chunk_accs(values, alpha, chunk, n + 1)
            == chunk_accs(values, alpha, chunk, n),
{
}

/// The selector cells: the selectors of the first and the last row, the inverse of the vanishing
/// polynomial, and the accumulators behind them.
pub proof fn law_selector_cells(
    is_first: (int, int),
    is_last: (int, int),
    inv_van: (int, int),
    values: Seq<(int, int)>,
    alpha: (int, int),
    chunk: int,
    i: int,
)
    requires
        0 <= i < chunk_accs(values, alpha, chunk, values.len()).len(),
    ensures
        ({
            let s = selectors_z(is_first, is_last, inv_van, values, alpha, chunk);
            let accs = chunk_accs(values, alpha, chunk, values.len());
            &&& s.len() == 6 + 2 * accs.len()
            &&& (s[0], s[1]) == is_first
            &&& (s[2], s[3]) == is_last
            &&& (s[4], s[5]) == inv_van
            &&& (s[6 + 2 * i], s[7 + 2 * i]) == accs[i]
        }),
{
    let c = coords(chunk_accs(values, alpha, chunk, values.len()));
    assert(c[2 * i] == chunk_accs(values, alpha, chunk, values.len())[i].0);
    assert(c[2 * i + 1] == chunk_accs(values, alpha, chunk, values.len())[i].1);
}

/// Every square is that of the one before, the first that of the point.
pub proof fn law_squares(z: (int, int), n: nat)
    ensures
        squares_z(z, 0).len() == 0,
        squares_z(z, 1) == seq![ered(zmul(z, z))],
        squares_z(z, n + 2) == squares_z(z, n + 1).push(
            ered(zmul(squares_z(z, n + 1).last(), squares_z(z, n + 1).last())),
        ),
{
    reveal_with_fuel(squares_z, 2);
    assert(squares_z(z, 1) =~= seq![ered(zmul(z, z))]);
}

/// What a padding row holds: the selectors, the schedule and the batching challenge at their columns, and
/// zeros everywhere else.
pub proof fn law_padding_cell(
    width: int,
    carry: int,
    alpha: Challenge,
    at: int,
    schedule: Seq<u64>,
    base: int,
    selectors: Seq<u64>,
    c: int,
)
    requires
        0 <= c < width,
    ensures
        ({
            let row = padding_row(width, carry, alpha, at, schedule, base, selectors);
            let sel = base <= c < base + selectors.len();
            let win = at <= c < at + schedule.len();
            &&& row.len() == width
            &&& sel ==> row[c] == selectors[c - base]
            &&& !sel && win ==> row[c] == schedule[c - at]
            &&& !sel && !win && c == carry ==> row[c] == alpha.c0
            &&& !sel && !win && c == carry + 1 ==> row[c] == alpha.c1
            &&& !sel && !win && c != carry && c != carry + 1 ==> row[c] == 0
        }),
{
}

/// What every row of an inner trace holds: the selectors, the public window with the squares behind it
/// where the layout has one, and the combination challenge.
pub proof fn law_held_cells(w: SourceZ, l: WindowLayout, i: int, c: int)
    requires
        0 <= i < l.height,
        0 <= c < bare_row(w, l, i).len(),
    ensures
        ({
            let row = inner_trace(w, l)[i];
            let shown = w.window + coords(
                squares_z((w.window[2], w.window[3]), l.segment.rounds as nat),
            );
            let sel = l.sel_base <= c < l.sel_base + w.selectors.len();
            let win = l.column_window && l.pw <= c < l.pw + shown.len();
            &&& inner_trace(w, l).len() == l.height
            &&& sel ==> row[c] == w.selectors[c - l.sel_base]
            &&& !sel && win ==> row[c] == shown[c - l.pw]
            &&& !sel && !win && c == l.carry ==> row[c] == w.alpha.0
            &&& !sel && !win && c == l.carry + 1 ==> row[c] == w.alpha.1
            &&& !sel && !win && c != l.carry && c != l.carry + 1 ==> row[c] == bare_row(w, l, i)[c]
        }),
{
    reveal_with_fuel(overlaid_all, 4);
    let bare = bare_row(w, l, i);
    let a = (l.carry as int, seq![w.alpha.0, w.alpha.1]);
    let shown = w.window + coords(squares_z((w.window[2], w.window[3]), l.segment.rounds as nat));
    let b = (l.pw as int, shown);
    let s = (l.sel_base as int, w.selectors);
    let held = all_held(w, l);
    assert(inner_trace(w, l)[i] == overlaid_all(bare, held));
    if l.column_window {
        assert(held =~= seq![a, b, s]);
        assert(held.drop_last() =~= seq![a, b]);
        assert(held.drop_last().drop_last() =~= seq![a]);
        assert(held.drop_last().drop_last().drop_last() =~= Seq::<(int, Seq<int>)>::empty());
        assert(overlaid_all(bare, held) == overlaid(
            overlaid(overlaid(bare, a.0, a.1), b.0, b.1),
            s.0,
            s.1,
        ));
    } else {
        assert(held =~= seq![a, s]);
        assert(held.drop_last() =~= seq![a]);
        assert(held.drop_last().drop_last() =~= Seq::<(int, Seq<int>)>::empty());
        assert(overlaid_all(bare, held) == overlaid(overlaid(bare, a.0, a.1), s.0, s.1));
    }
}

/// The rows of an inner trace but for what every row holds: the transcript, then the queries one behind
/// the other, each from its own openings, index element and salts, then zeros.
pub proof fn law_trace_rows(w: SourceZ, l: WindowLayout, i: int, q: int, k: int)
    requires
        l.segment.m_period > 0,
        0 <= q < w.tiles.len(),
        0 <= k < l.segment.m_period,
        0 <= tr_z(w),
    ensures
        i < tr_z(w) ==> bare_row(w, l, i) == overlaid(
            zeros(l.segment.width as int),
            0,
            ft_trace(w.blocks)[i],
        ),
        bare_row(w, l, tr_z(w) + q * l.segment.m_period + k) == segment_z(
            l.segment,
            w.tiles[q],
            w.felts[q],
            w.witness(q),
        )[k],
        i >= tr_z(w) + w.tiles.len() * l.segment.m_period ==> bare_row(w, l, i)
            == zeros(l.segment.width as int),
{
    let m = l.segment.m_period as int;
    let d = q * m + k;
    vstd::arithmetic::div_mod::lemma_fundamental_div_mod_converse(d, m, q, k);
    assert(d < w.tiles.len() * m) by (nonlinear_arith)
        requires
            d == q * m + k,
            k < m,
            q + 1 <= w.tiles.len(),
            m > 0,
    ;
    assert(0 <= q * m) by (nonlinear_arith)
        requires
            q >= 0,
            m > 0,
    ;
    assert(0 <= w.tiles.len() * m) by (nonlinear_arith)
        requires
            m > 0,
    ;
    assert(tr_z(w) + q * m + k - tr_z(w) == d);
}

/// A leaf of the trace: every opened value of the row, and the four elements of its salt behind them
/// where the commitments hide.
pub proof fn law_trace_leaf(l: SegmentLayout, o: TileOpenings, h: Option<&HidingWitness>, i: int, k: int)
    requires
        0 <= i < l.committed_w,
        0 <= k < 4,
    ensures
        trace_leaf(l, o, h)[i] == o.query.terms@[l.trm_trace + i].px,
        h is None ==> trace_leaf(l, o, h).len() == l.committed_w,
        h is Some ==> trace_leaf(l, o, h).len() == l.committed_w + 4,
        h is Some ==> trace_leaf(l, o, h)[l.committed_w + k] == h->0.trace_salt@[k],
{
}

/// A leaf of the random round: every opened value of the row, and its salt.
pub proof fn law_random_leaf(l: SegmentLayout, o: TileOpenings, w: HidingWitness, i: int, k: int)
    requires
        0 <= i < l.random_w,
        0 <= k < 4,
    ensures
        random_leaf(l, o, w).len() == l.random_w + 4,
        random_leaf(l, o, w)[i] == o.query.terms@[i].px,
        random_leaf(l, o, w)[l.random_w + k] == w.random_salt@[k],
{
}

/// A leaf of the quotient grows chunk by chunk: every opened value of the chunk, and its salt.
pub proof fn law_quotient_leaf(
    l: SegmentLayout,
    o: TileOpenings,
    h: Option<&HidingWitness>,
    n: nat,
    i: int,
    k: int,
)
    requires
        0 <= i < l.chunk_w,
        0 <= k < 4,
    ensures
        quot_leaf(l, o, h, 0).len() == 0,
        ({
            let before = quot_leaf(l, o, h, n);
            let leaf = quot_leaf(l, o, h, n + 1);
            let at = before.len() as int;
            &&& leaf.take(at) == before
            &&& leaf[at + i] == o.query.terms@[l.trm_quot + n * l.chunk_w + i].px
            &&& h is None ==> leaf.len() == at + l.chunk_w
            &&& h is Some ==> leaf.len() == at + l.chunk_w + 4
            &&& h is Some ==> leaf[at + l.chunk_w + k] == h->0.quot_salts@[n as int]@[k]
        }),
{
    let before = quot_leaf(l, o, h, n);
    assert(quot_leaf(l, o, h, n + 1).take(before.len() as int) =~= before);
}

/// A leaf of a fold group: the four coordinates of the group, and its salt.
pub proof fn law_group_leaf(o: TileOpenings, h: Option<&HidingWitness>, r: int, k: int)
    requires
        0 <= r < o.commits@.len(),
        0 <= k < 4,
    ensures
        commit_leaf(o, h, r)[k] == o.commits@[r].group@[k],
        h is None ==> commit_leaf(o, h, r).len() == 4,
        h is Some ==> commit_leaf(o, h, r).len() == 8,
        h is Some ==> commit_leaf(o, h, r)[4 + k] == h->0.commit_salts@[r]@[k],
        group_cells(o).len() == 4 * o.commits@.len(),
        group_cells(o)[4 * r + k] == o.commits@[r].group@[k],
{
}

/// The roots of the commit rounds: of every round with an opening the root that its leaf leads to, and
/// zeros for the others.
pub proof fn law_commit_roots(o: TileOpenings, h: Option<&HidingWitness>, n: nat)
    ensures
        commit_roots(o, h, 0).len() == 0,
        n < o.commits@.len() ==> commit_roots(o, h, n + 1) == commit_roots(o, h, n) + root_of(
            row_hash(commit_leaf(o, h, n as int)),
            path_z(o.commits@[n as int].path@),
        ),
        n >= o.commits@.len() ==> commit_roots(o, h, n + 1) == commit_roots(o, h, n) + seq![
            0int,
            0,
            0,
            0,
        ],
{
}

/// The roots of a query: that of the trace, that of the quotient, those of the commit rounds, and that of
/// the random round where the commitments hide.
pub proof fn law_query_roots(l: SegmentLayout, o: TileOpenings, h: Option<&HidingWitness>)
    ensures
        h is None ==> root_cells(l, o, h) == root_of(
            row_hash(trace_leaf(l, o, h)),
            path_z(o.path@),
        ) + root_of(row_hash(quot_leaf(l, o, h, l.nqc as nat)), path_z(o.quot_path@)) + commit_roots(
            o,
            h,
            l.rounds as nat,
        ),
        h is Some ==> root_cells(l, o, h) == root_of(
            row_hash(trace_leaf(l, o, h)),
            path_z(o.path@),
        ) + root_of(row_hash(quot_leaf(l, o, h, l.nqc as nat)), path_z(o.quot_path@)) + commit_roots(
            o,
            h,
            l.rounds as nat,
        ) + root_of(row_hash(random_leaf(l, o, *h->0)), path_z(h->0.random_path@)),
{
}

/// What is left of the index in round `r`: the index of the query, without its `r` lowest bits.
pub proof fn law_index_left(l: SegmentLayout, felt: int, r: int)
    requires
        0 <= r <= l.rounds,
    ensures
        rem_patches(l, felt).len() == l.rounds + 1,
        rem_patches(l, felt)[r].row == r,
        rem_patches(l, felt)[r].col == l.idx_rem,
        rem_patches(l, felt)[r].vals == seq![
            (red(felt) % (pow2(l.lg as nat) as int)) / (pow2(r as nat) as int),
        ],
{
    let m = pow2(l.lg as nat) as int;
    lemma_pow2_pos(l.lg as nat);
    vstd::arithmetic::div_mod::lemma_mod_bound(red(felt), m);
    lemma_shr(red(felt) % m, r as nat);
}

/// What the trace of a hiding window is made of: the blocks of its replay, the tile and the salts of every
/// query, the batching challenge, which is the third one of the replay, every index element, and the two
/// windows.
pub proof fn law_hiding_source(w: SymbolicHidingInnerWindow, q: int)
    requires
        0 <= q < w.queries@.len(),
    ensures
        ({
            let s = hiding_source(w);
            &&& s.blocks == states(w.replay.block_inputs@)
            &&& s.tiles.len() == w.queries@.len()
            &&& s.tiles[q] == w.queries@[q].tile
            &&& s.witnesses is Some
            &&& s.witnesses->0.len() == w.queries@.len()
            &&& s.witnesses->0[q] == w.queries@[q].witness
            &&& s.witness(q) == Some(&w.queries@[q].witness)
            &&& s.alpha == w.replay.challenges@[2]@
            &&& s.felts == ints(w.replay.index_felts@)
            &&& s.window == ints(w.pub_window@)
            &&& s.selectors == ints(w.selector_window@)
        }),
{
}

/// The same of a window that hides nothing, which has no salts.
pub proof fn law_plain_source(w: SymbolicInnerWindow, q: int)
    requires
        0 <= q < w.queries@.len(),
    ensures
        ({
            let s = plain_source(w);
            &&& s.blocks == states(w.replay.block_inputs@)
            &&& s.tiles == w.queries@
            &&& s.witnesses is None
            &&& s.witness(q) is None
            &&& s.alpha == w.replay.challenges@[2]@
            &&& s.felts == ints(w.replay.index_felts@)
            &&& s.window == ints(w.pub_window@)
            &&& s.selectors == ints(w.selector_window@)
        }),
{
}

} // verus!
