//! The transcript and the arithmetic of all queries in one constraint system: the transcript region
//! derives the challenges and the indices, and one tile per query reads them.
use super::cells::{extend, put, query_ok, split_cells, split_row, zero_cells, zeros, Query};
use super::parts::{
    accept_list, accept_part, beta_exprs, beta_polys, carrier_list, carrier_part, fold_list,
    fold_part, index_list, index_part, opening_part, per_select, per_select_expr, per_sum,
    per_sum_expr, point_part, shift_expr, shift_z, terms_limit, transcript_list, transcript_part,
    QT_ALPHA, QT_TERMS,
};
use super::query_tile::{fold_along, lemma_fold_along};
use super::region::{
    bound_head_list, index_holds, lemma_beta_row, lemma_bound_head, lemma_carrier_list, lemma_held,
    lemma_index_holds, lemma_index_list, lemma_region, lemma_select_one, lemma_shift, lemma_sum_one,
    lemma_transcript_list, region_col, region_row, slots_z, tile_bound,
};
use super::sponge::{
    bound, follows, ft_build_trace, ft_trace, squeezed, trace_inputs, FullTranscriptAir,
};
use super::tiled::{
    head_holds, head_opening, lemma_accept_list, lemma_fold_list, lemma_head_sound, lemma_one,
    tile_row, tile_rows, TILE_H,
};
use crate::bits::{shift_right, shr_z};
use crate::cols::{
    count_col, count_of, count_z, hot_col, hot_z, last_col, last_z, lemma_np2, next_power_of_two,
    np2, range_col, range_z, squeeze_col, squeeze_z,
};
use crate::expr::{
    cells, cst, cur, denote, emit, emit_all, gated, holds, lemma_holds_concat, lemma_holds_gated,
    lemma_holds_push, pair, per, row_env, satisfied, vanish, Constraint, Env, Expr, Gate, Trace,
};
use crate::field::{cong, econg, ints, lemma_cong_diff, red, Challenge, P};
use crate::fri_merkle::canonical_cells;
use crate::gadgets::{
    bind_polys, fold_polys, index_bind_polys, sponge_link, sponge_start, FT_BIND_START,
};
use crate::poseidon2::{lanes, periodic_table, round_col, round_polys, round_row, BLOCK, ROUND_COLS};
use crate::transcript::states;
use vstd::arithmetic::power2::pow2;
use vstd::prelude::*;

verus! {

/// The absorbed counts of the transcript blocks, the blocks that squeeze the bound challenges, the
/// block and lane of each bound index, and the shape of the tiles.
#[derive(Debug)]
pub struct Phase4AAir {
    pub counts: Vec<u8>,
    pub binds: Vec<usize>,
    pub index_binds: Vec<(usize, usize)>,
    pub n_queries: usize,
    pub n_terms: usize,
}

impl Phase4AAir {
    /// There is a term, every column can be addressed, and the first three bound challenges are
    /// there.
    pub open spec fn wf(self) -> bool {
        &&& 1 <= self.n_terms
        &&& terms_limit(self.n_terms as int)
        &&& 3 * self.binds.len() + self.index_binds.len() + self.n_queries + 100 <= usize::MAX
        &&& self.binds.len() >= 3
    }

    pub open spec fn nb_z(self) -> int {
        self.binds.len() as int
    }

    pub open spec fn ni_z(self) -> int {
        self.index_binds.len() as int
    }

    pub open spec fn rounds_z(self) -> int {
        self.nb_z() - 3
    }

    pub open spec fn sb_x_z(self) -> int {
        QT_TERMS + 9 * self.n_terms
    }

    pub open spec fn idx_rem_z(self) -> int {
        self.sb_x_z() + 96
    }

    pub open spec fn carry_z(self) -> int {
        self.idx_rem_z() + 1
    }

    pub open spec fn p_round_z(self, r: int) -> int {
        15 + self.nb_z() + self.ni_z() + r
    }

    pub open spec fn p_query_z(self, q: int) -> int {
        15 + self.nb_z() + self.ni_z() + self.rounds_z() + q
    }

    pub open spec fn p_tf_z(self) -> int {
        self.p_query_z(self.n_queries as int)
    }

    /// The transcript region as a transcript of its own.
    pub open spec fn transcript(self) -> FullTranscriptAir {
        FullTranscriptAir {
            counts: self.counts,
            binds: self.binds,
            index_binds: self.index_binds,
        }
    }

    pub fn nb(&self) -> (r: usize)
        ensures
            r == self.nb_z(),
    {
        self.binds.len()
    }

    pub fn ni(&self) -> (r: usize)
        ensures
            r == self.ni_z(),
    {
        self.index_binds.len()
    }

    pub fn n_rounds(&self) -> (r: usize)
        requires
            self.wf(),
        ensures
            r == self.rounds_z(),
    {
        self.nb() - 3
    }

    /// The column that marks row `r` of every tile.
    pub fn p_round(&self, r: usize) -> (c: usize)
        requires
            self.wf(),
            r <= self.rounds_z(),
        ensures
            c == self.p_round_z(r as int),
    {
        FT_BIND_START + self.nb() + self.ni() + r
    }

    /// The column that marks the head of tile `q`.
    pub fn p_query(&self, q: usize) -> (c: usize)
        requires
            self.wf(),
            q <= self.n_queries,
        ensures
            c == self.p_query_z(q as int),
    {
        FT_BIND_START + self.nb() + self.ni() + self.n_rounds() + q
    }

    pub fn p_tf(&self) -> (c: usize)
        requires
            self.wf(),
        ensures
            c == self.p_tf_z(),
    {
        self.p_query(self.n_queries)
    }

    pub fn p_tl(&self) -> (c: usize)
        requires
            self.wf(),
        ensures
            c == self.p_tf_z() + 1,
    {
        self.p_tf() + 1
    }

    pub fn p_strans(&self) -> (c: usize)
        requires
            self.wf(),
        ensures
            c == self.p_tf_z() + 2,
    {
        self.p_tf() + 2
    }

    pub fn p_squery(&self) -> (c: usize)
        requires
            self.wf(),
        ensures
            c == self.p_tf_z() + 3,
    {
        self.p_tf() + 3
    }

    pub fn tile_w(&self) -> (r: usize)
        requires
            self.wf(),
        ensures
            r == self.sb_x_z(),
    {
        QT_TERMS + 9 * self.n_terms
    }

    pub fn sb_x(&self) -> (r: usize)
        requires
            self.wf(),
        ensures
            r == self.sb_x_z(),
    {
        self.tile_w()
    }

    pub fn idx_rem(&self) -> (r: usize)
        requires
            self.wf(),
        ensures
            r == self.idx_rem_z(),
    {
        self.sb_x() + 96
    }

    pub fn carry(&self) -> (r: usize)
        requires
            self.wf(),
        ensures
            r == self.carry_z(),
    {
        self.idx_rem() + 1
    }

    pub fn fused_w(&self) -> (r: usize)
        requires
            self.wf(),
        ensures
            r == self.carry_z() + 2,
    {
        self.idx_rem() + 3
    }

    pub fn width(&self) -> (r: usize)
        requires
            self.wf(),
        ensures
            r == self.carry_z() + 2,
    {
        self.fused_w()
    }

    pub fn num_public_values(&self) -> (r: usize)
        requires
            self.wf(),
        ensures
            r == 2 * self.nb_z() + self.ni_z() + 2,
    {
        2 * self.nb() + self.ni() + 2
    }

    pub fn num_periodic_columns(&self) -> (r: usize)
        requires
            self.wf(),
        ensures
            r == self.p_tf_z() + 4,
    {
        self.p_squery() + 1
    }

    /// The transcript region, and the challenge that the tiles read.
    pub open spec fn transcript_polys(self, env: Env) -> Seq<(Gate, int)> {
        let stt = env.per[self.p_tf_z() + 2];
        carrier_list(
            transcript_list(Seq::empty(), env, stt, stt, self.nb_z(), self.index_binds@),
            env,
            self.carry_z(),
        )
    }

    /// The head of a tile.
    pub open spec fn head_polys(self, acc: Seq<(Gate, int)>, env: Env) -> Seq<(Gate, int)> {
        let tf = env.per[self.p_tf_z()];
        let carry = self.carry_z();
        index_list(
            bound_head_list(acc, env, tf, carry, self.n_terms as int) + gated(Gate::Always, beta_polys(env, self.p_round_z(0), self.rounds_z())),
            env,
            tf,
            per_select(
                env.per,
                self.p_query_z(0),
                env.pis,
                2 * self.nb_z(),
                self.n_queries as nat,
            ),
            self.sb_x_z(),
        )
    }

    pub open spec fn polys(self, env: Env) -> Seq<(Gate, int)> {
        let p = env.per;
        let tl = p[self.p_tf_z() + 1];
        let mask = per_sum(p, self.p_round_z(0), self.rounds_z() as nat);
        accept_list(
            fold_list(
                self.head_polys(self.transcript_polys(env), env).push(
                    (Gate::Transition, mask * shift_z(env, self.idx_rem_z())),
                ),
                env,
                p[self.p_tf_z() + 3] * (1 - tl),
            ),
            env,
            tl,
            2 * self.nb_z() + self.ni_z(),
        )
    }

    pub fn eval(&self) -> (r: Vec<Constraint>)
        requires
            self.wf(),
        ensures
            forall|env: Env| #[trigger] denote(r@, env) == self.polys(env),
    {
        let mut out: Vec<Constraint> = Vec::new();
        proof {
            assert forall|env: Env| #[trigger] denote(out@, env) == Seq::<(Gate, int)>::empty() by {
                assert(denote(out@, env) =~= Seq::<(Gate, int)>::empty());
            }
        }
        let tf: Expr = per(self.p_tf());
        let tl: Expr = per(self.p_tl());
        let stt: Expr = per(self.p_strans());
        let sq: Expr = per(self.p_squery());
        let carry: usize = self.carry();
        transcript_part(&mut out, &stt, &stt, self.nb(), &self.index_binds);
        carrier_part(&mut out, carry);
        assert(forall|env: Env| #[trigger] denote(out@, env) == self.transcript_polys(env));
        point_part(&mut out, &tf);
        emit(&mut out, Gate::Always, tf.times(&cur(QT_ALPHA).minus(&cur(carry))));
        emit(&mut out, Gate::Always, tf.times(&cur(QT_ALPHA + 1).minus(&cur(carry + 1))));
        opening_part(&mut out, &tf, self.n_terms);
        let betas: Vec<Expr> = beta_exprs(self.p_round(0), self.n_rounds());
        emit_all(&mut out, Gate::Always, &betas);
        let selected: Expr = per_select_expr(self.p_query(0), 2 * self.nb(), self.n_queries);
        index_part(&mut out, &tf, &selected, self.sb_x());
        assert(forall|env: Env|
            #[trigger] denote(out@, env) == self.head_polys(self.transcript_polys(env), env));
        let mask: Expr = per_sum_expr(self.p_round(0), self.n_rounds());
        emit(&mut out, Gate::Transition, mask.times(&shift_expr(self.idx_rem())));
        fold_part(&mut out, &sq.times(&cst(1).minus(&tl)));
        accept_part(&mut out, &tl, 2 * self.nb() + self.ni());
        out
    }

    /// The rows of the transcript region.
    pub open spec fn tr_z(self) -> int {
        np2(self.counts.len() as int) * 32
    }

    pub open spec fn height_z(self) -> int {
        np2(self.tr_z() + 8 * self.n_queries)
    }

    /// The trace has a height, each bound block has an output row in it, and so has each round.
    pub open spec fn fits(self) -> bool {
        &&& self.wf()
        &&& self.height_z() <= usize::MAX
        &&& forall|j: int|
            0 <= j < self.binds.len() ==> (#[trigger] self.binds@[j]) * 32 + 31 < self.height_z()
        &&& forall|j: int|
            0 <= j < self.index_binds.len() ==> (#[trigger] self.index_binds@[j]).0 * 32 + 31
                < self.height_z()
        &&& self.n_queries > 0 ==> self.tr_z() + 8 * (self.n_queries - 1) + self.rounds_z()
            <= self.height_z()
    }

    pub proof fn lemma_height(self)
        requires
            self.fits(),
        ensures
            self.tr_z() + 8 * self.n_queries <= self.height_z() <= usize::MAX,
            0 < np2(self.counts.len() as int) <= self.tr_z() <= usize::MAX,
    {
        lemma_np2(self.counts.len() as int);
        lemma_np2(self.tr_z() + 8 * self.n_queries);
    }

    pub fn tr(&self) -> (r: usize)
        requires
            self.fits(),
        ensures
            r == self.tr_z(),
    {
        proof {
            self.lemma_height();
        }
        next_power_of_two(self.counts.len()) * BLOCK
    }

    pub fn height(&self) -> (r: usize)
        requires
            self.fits(),
        ensures
            r == self.height_z(),
    {
        proof {
            self.lemma_height();
        }
        next_power_of_two(self.tr() + self.n_queries * TILE_H)
    }

    /// Entry `r` of periodic column `j`.
    pub open spec fn col(self, j: int, r: int) -> int {
        let (nb, ni, nq) = (self.nb_z(), self.ni_z(), self.n_queries as int);
        let (tr, h) = (self.tr_z(), self.height_z());
        let f = self.p_tf_z();
        if j < 11 {
            round_col(j, r)
        } else if j == 11 {
            last_z(r)
        } else if j == 12 {
            count_z(self.counts@, r, 0, h)
        } else if j == 13 {
            count_z(self.counts@, r, 1, h)
        } else if j == 14 {
            squeeze_z(self.counts@, r, h)
        } else if j < 15 + nb {
            range_z(r, self.binds@[j - 15] * 32 + 31, self.binds@[j - 15] * 32 + 32)
        } else if j < 15 + nb + ni {
            let b = self.index_binds@[j - 15 - nb].0;
            range_z(r, b * 32 + 31, b * 32 + 32)
        } else if j < self.p_query_z(0) {
            hot_z(r, tr, 8, nq, j - self.p_round_z(0))
        } else if j < f {
            let at = tr + 8 * (j - self.p_query_z(0));
            range_z(r, at, at + 1)
        } else if j == f {
            hot_z(r, tr, 8, nq, 0)
        } else if j == f + 1 {
            hot_z(r, tr, 8, nq, 7)
        } else if j == f + 2 {
            range_z(r, 0, tr - 1)
        } else {
            range_z(r, tr, tr + 8 * nq)
        }
    }

    /// The periodic columns.
    pub open spec fn cols_z(self) -> Seq<Seq<int>> {
        Seq::new(
            (self.p_tf_z() + 4) as nat,
            |j: int|
                Seq::new(
                    if j < 12 {
                        32nat
                    } else {
                        self.height_z() as nat
                    },
                    |r: int| self.col(j, r),
                ),
        )
    }

    /// Whether the first `n` columns stand.
    pub open spec fn cols_to(self, cols: Seq<Vec<u64>>, n: int) -> bool {
        &&& cols.len() == n
        &&& forall|j: int| 0 <= j < n ==> ints((#[trigger] cols[j])@) == self.cols_z()[j]
    }

    fn transcript_cols(&self) -> (cols: Vec<Vec<u64>>)
        requires
            self.fits(),
        ensures
            self.cols_to(cols@, self.p_round_z(0)),
    {
        let h: usize = self.height();
        let mut cols: Vec<Vec<u64>> = periodic_table();
        cols.push(last_col(BLOCK));
        cols.push(count_col(h, &self.counts, 0, h));
        cols.push(count_col(h, &self.counts, 1, h));
        cols.push(squeeze_col(h, &self.counts, h));
        proof {
            assert forall|j: int| 0 <= j < 15 implies ints((#[trigger] cols@[j])@)
                == self.cols_z()[j] by {
                assert(ints(cols@[j]@) =~= self.cols_z()[j]);
            }
        }
        let nb: usize = self.nb();
        let ni: usize = self.ni();
        for i in 0..nb
            invariant
                nb == self.nb_z(),
                h == self.height_z(),
                self.fits(),
                self.cols_to(cols@, 15 + i),
        {
            assert(self.binds@[i as int] * 32 + 31 < self.height_z());
            let at: usize = self.binds[i] * BLOCK + BLOCK - 1;
            let c: Vec<u64> = range_col(h, at, at + 1);
            assert(ints(c@) =~= self.cols_z()[15 + i]);
            cols.push(c);
        }
        for i in 0..ni
            invariant
                nb == self.nb_z(),
                ni == self.ni_z(),
                h == self.height_z(),
                self.fits(),
                self.cols_to(cols@, 15 + nb + i),
        {
            assert(self.index_binds@[i as int].0 * 32 + 31 < self.height_z());
            let at: usize = self.index_binds[i].0 * BLOCK + BLOCK - 1;
            let c: Vec<u64> = range_col(h, at, at + 1);
            assert(ints(c@) =~= self.cols_z()[15 + nb + i]);
            cols.push(c);
        }
        cols
    }

    pub fn periodic(&self) -> (cols: Vec<Vec<u64>>)
        requires
            self.fits(),
        ensures
            cells(cols@) == self.cols_z(),
    {
        let mut cols: Vec<Vec<u64>> = self.transcript_cols();
        proof {
            self.lemma_height();
        }
        let h: usize = self.height();
        let tr: usize = self.tr();
        let nq: usize = self.n_queries;
        let rounds: usize = self.n_rounds();
        for i in 0..rounds
            invariant
                h == self.height_z(),
                tr == self.tr_z(),
                nq == self.n_queries,
                rounds == self.rounds_z(),
                self.fits(),
                self.cols_to(cols@, self.p_round_z(i as int)),
        {
            let c: Vec<u64> = hot_col(h, tr, TILE_H, nq, i);
            assert(ints(c@) =~= self.cols_z()[self.p_round_z(i as int)]);
            cols.push(c);
        }
        for q in 0..nq
            invariant
                h == self.height_z(),
                tr == self.tr_z(),
                nq == self.n_queries,
                tr + 8 * nq <= usize::MAX,
                self.fits(),
                self.cols_to(cols@, self.p_query_z(q as int)),
        {
            let at: usize = tr + q * TILE_H;
            let c: Vec<u64> = range_col(h, at, at + 1);
            assert(ints(c@) =~= self.cols_z()[self.p_query_z(q as int)]);
            cols.push(c);
        }
        cols.push(hot_col(h, tr, TILE_H, nq, 0));
        cols.push(hot_col(h, tr, TILE_H, nq, TILE_H - 1));
        cols.push(range_col(h, 0, tr - 1));
        cols.push(range_col(h, tr, tr + nq * TILE_H));
        proof {
            let want = self.cols_z();
            assert forall|j: int| 0 <= j < want.len() implies #[trigger] cells(cols@)[j] == want[j] by {
                assert(ints(cols@[j]@) =~= want[j]);
            }
            assert(cells(cols@) =~= want);
        }
        cols
    }

    /// Row `r` of the trace of recorded block inputs, of queries and of their index elements, with
    /// the combination challenge on every row.
    pub open spec fn trace_row(
        self,
        inputs: Seq<Seq<int>>,
        qs: Seq<Query>,
        alpha: (int, int),
        felts: Seq<int>,
        r: int,
    ) -> Seq<int> {
        let tr = self.tr_z();
        let (q, j) = ((r - tr) / 8, (r - tr) % 8);
        let shift = if j < self.rounds_z() {
            j
        } else {
            self.rounds_z()
        };
        (if r < tr {
            ft_trace(inputs)[r] + zeros(self.carry_z() - 8)
        } else if q < self.n_queries {
            (tile_row(qs[q], self.n_terms as int, j) + (if j == 0 {
                split_cells(felts[q])
            } else {
                zeros(96)
            })).push(shr_z(red(felts[q]) % 1024, shift as nat))
        } else {
            zeros(self.carry_z())
        }).push(alpha.0).push(alpha.1)
    }

    /// The trace.
    pub open spec fn trace_z(
        self,
        inputs: Seq<Seq<int>>,
        qs: Seq<Query>,
        alpha: (int, int),
        felts: Seq<int>,
    ) -> Seq<Seq<int>> {
        Seq::new(
            self.height_z() as nat,
            |r: int| self.trace_row(inputs, qs, alpha, felts, r),
        )
    }

    /// The block inputs fill the region, and there are a query and an index element for each tile.
    pub open spec fn inputs_fit(self, blocks: int, qs: Seq<Query>, felts: int) -> bool {
        &&& np2(blocks) == np2(self.counts.len() as int)
        &&& qs.len() == self.n_queries
        &&& felts >= self.n_queries
    }

    /// Every query can be put into a tile.
    pub open spec fn queries_fit(self, qs: Seq<Query>) -> bool {
        super::tiled::queries_ok(qs, self.n_terms as int)
    }
}

/// The rows of one tile beside those of its arithmetic: index decomposition and remaining index.
fn tile_with_index(
    air: &Phase4AAir,
    q: &Query,
    felt: u64,
    alpha: Challenge,
) -> (t: Trace)
    requires
        air.wf(),
        query_ok(*q, 10),
        q.terms.len() <= air.n_terms,
    ensures
        t.len() == 8,
        forall|j: int|
            0 <= j < 8 ==> ints((#[trigger] t@[j])@) == ({
                let shift = if j < air.rounds_z() {
                    j
                } else {
                    air.rounds_z()
                };
                (tile_row(*q, air.n_terms as int, j) + (if j == 0 {
                    split_cells(felt as int)
                } else {
                    zeros(96)
                })).push(shr_z(red(felt as int) % 1024, shift as nat)).push(alpha@.0).push(
                    alpha@.1,
                )
            }),
{
    let rows: Trace = tile_rows(q, air.n_terms, TILE_H);
    let low: u64 = (felt % P) % 1024;
    assert(low == red(felt as int) % 1024);
    let rounds: usize = air.n_rounds();
    let mut t: Trace = Vec::new();
    for j in 0..TILE_H
        invariant
            rows.len() == 8,
            forall|i: int|
                0 <= i < 8 ==> ints((#[trigger] rows@[i])@) == tile_row(*q, air.n_terms as int, i),
            low == red(felt as int) % 1024,
            rounds == air.rounds_z(),
            t.len() == j,
            forall|i: int|
                0 <= i < j ==> ints((#[trigger] t@[i])@) == ({
                    let shift = if i < air.rounds_z() {
                        i
                    } else {
                        air.rounds_z()
                    };
                    (tile_row(*q, air.n_terms as int, i) + (if i == 0 {
                        split_cells(felt as int)
                    } else {
                        zeros(96)
                    })).push(shr_z(red(felt as int) % 1024, shift as nat)).push(alpha@.0).push(
                        alpha@.1,
                    )
                }),
    {
        let mut row: Vec<u64> = Vec::new();
        assert(ints(row@) =~= Seq::<int>::empty());
        extend(&mut row, &rows[j]);
        assert(ints(row@) =~= tile_row(*q, air.n_terms as int, j as int));
        if j == 0 {
            extend(&mut row, &split_row(felt));
        } else {
            extend(&mut row, &zero_cells(96));
        }
        let shift: usize = if j < rounds {
            j
        } else {
            rounds
        };
        put(&mut row, shift_right(low, shift));
        put(&mut row, alpha.c0);
        put(&mut row, alpha.c1);
        t.push(row);
    }
    t
}

/// Fills the trace from the recorded inputs of the transcript blocks, the queries, the combination
/// challenge and the index elements.
pub fn phase4a_build_trace(
    air: &Phase4AAir,
    block_inputs: &Vec<[u64; 8]>,
    per_query: &Vec<Query>,
    alpha_fri: Challenge,
    index_felts: &[u64],
) -> (t: Trace)
    requires
        air.fits(),
        air.inputs_fit(block_inputs.len() as int, per_query@, index_felts@.len() as int),
        air.queries_fit(per_query@),
    ensures
        cells(t@) == air.trace_z(
            states(block_inputs@),
            per_query@,
            alpha_fri@,
            ints(index_felts@),
        ),
{
    proof {
        air.lemma_height();
    }
    let ghost (ins, fs, az) = (states(block_inputs@), ints(index_felts@), alpha_fri@);
    let (h, tr, nq) = (air.height(), air.tr(), air.n_queries);
    let rest: usize = air.carry() - 8;
    let ft: Trace = ft_build_trace(block_inputs);
    proof {
        assert(cells(ft@).len() == tr);
        assert forall|r: int| 0 <= r < tr implies ints((#[trigger] ft@[r])@) == ft_trace(ins)[r] by {
            assert(cells(ft@)[r] == ft_trace(ins)[r]);
        }
    }
    let mut t: Trace = Vec::new();
    for r in 0..tr
        invariant
            tr == air.tr_z(),
            ft.len() == tr,
            rest == air.carry_z() - 8,
            az == alpha_fri@,
            forall|i: int| 0 <= i < tr ==> ints((#[trigger] ft@[i])@) == ft_trace(ins)[i],
            t.len() == r,
            forall|i: int|
                0 <= i < r ==> ints((#[trigger] t@[i])@) == air.trace_row(
                    ins,
                    per_query@,
                    az,
                    fs,
                    i,
                ),
    {
        let mut row: Vec<u64> = Vec::new();
        assert(ints(row@) =~= Seq::<int>::empty());
        extend(&mut row, &ft[r]);
        assert(ints(row@) =~= ft_trace(ins)[r as int]);
        extend(&mut row, &zero_cells(rest));
        put(&mut row, alpha_fri.c0);
        put(&mut row, alpha_fri.c1);
        t.push(row);
    }
    for q in 0..nq
        invariant
            tr == air.tr_z(),
            nq == air.n_queries,
            nq == per_query.len(),
            nq <= index_felts@.len(),
            fs == ints(index_felts@),
            az == alpha_fri@,
            air.wf(),
            air.queries_fit(per_query@),
            t.len() == tr + 8 * q,
            forall|i: int|
                0 <= i < tr + 8 * q ==> ints((#[trigger] t@[i])@) == air.trace_row(
                    ins,
                    per_query@,
                    az,
                    fs,
                    i,
                ),
    {
        assert(query_ok(per_query@[q as int], 10));
        let mut rows: Trace = tile_with_index(air, &per_query[q], index_felts[q], alpha_fri);
        let ghost (before, tile) = (t@, rows@);
        t.append(&mut rows);
        proof {
            assert forall|i: int| 0 <= i < tr + 8 * (q + 1) implies ints((#[trigger] t@[i])@)
                == air.trace_row(ins, per_query@, az, fs, i) by {
                if i < tr + 8 * q {
                    assert(t@[i] == before[i]);
                } else {
                    let j = i - tr - 8 * q;
                    assert(t@[i] == tile[j]);
                    assert((i - tr) / 8 == q && (i - tr) % 8 == j);
                    assert(fs[q as int] == index_felts@[q as int]);
                }
            }
        }
    }
    for r in tr + 8 * nq..h
        invariant
            tr == air.tr_z(),
            nq == air.n_queries,
            tr + 8 * nq <= h,
            rest == air.carry_z() - 8,
            az == alpha_fri@,
            air.wf(),
            t.len() == r,
            forall|i: int|
                0 <= i < r ==> ints((#[trigger] t@[i])@) == air.trace_row(
                    ins,
                    per_query@,
                    az,
                    fs,
                    i,
                ),
    {
        let mut row: Vec<u64> = zero_cells(rest + 8);
        put(&mut row, alpha_fri.c0);
        put(&mut row, alpha_fri.c1);
        t.push(row);
    }
    assert(cells(t@) =~= air.trace_z(ins, per_query@, az, fs));
    t
}

/// Fills the trace, unless a query cannot be put into a tile.
pub fn try_phase4a_build_trace(
    air: &Phase4AAir,
    block_inputs: &Vec<[u64; 8]>,
    per_query: &Vec<Query>,
    alpha_fri: Challenge,
    index_felts: &[u64],
) -> (r: Option<Trace>)
    requires
        air.fits(),
        air.inputs_fit(block_inputs.len() as int, per_query@, index_felts@.len() as int),
    ensures
        r is Some <==> air.queries_fit(per_query@),
        r matches Some(t) ==> cells(t@) == air.trace_z(
            states(block_inputs@),
            per_query@,
            alpha_fri@,
            ints(index_felts@),
        ),
{
    if super::tiled::queries_are_ok(per_query, air.n_terms) {
        Some(phase4a_build_trace(air, block_inputs, per_query, alpha_fri, index_felts))
    } else {
        None
    }
}

/// What the constraints demand at row `r`: of the transcript region, of the carrier, and of row `j`
/// of tile `q` (`j` is negative outside the tiles).
#[verifier::opaque]
pub open spec fn p4_demand(air: Phase4AAir, env: Env, r: int, q: int, j: int) -> bool {
    let (h, tr) = (air.height_z(), air.tr_z());
    let (c, n) = (env.cur, env.nxt);
    let nb = air.nb_z();
    &&& r < tr - 1 ==> vanish(round_polys(lanes(c, 0), lanes(n, 0), env.per))
    &&& r == 0 ==> vanish(sponge_start(c, env.per[12]))
    &&& r < tr - 1 ==> vanish(sponge_link(c, n, env.per))
    &&& vanish(bind_polys(c, env.per, env.pis, nb))
    &&& vanish(index_bind_polys(c, env.per, env.pis, nb, air.index_binds@))
    &&& r != h - 1 ==> econg(pair(n, air.carry_z()), pair(c, air.carry_z()))
    &&& env.per[17] == 1 ==> squeezed(c, pair(c, air.carry_z()))
    &&& j == 0 ==> head_holds(c, air.n_terms as int) && econg(pair(c, 29), pair(c, air.carry_z()))
    &&& 0 <= j < air.rounds_z() ==> econg(pair(c, 4), pair(env.pis, 6 + 2 * j))
    &&& j == 0 ==> index_holds(c, env.pis[2 * nb + q], air.sb_x_z())
    &&& r != h - 1 && 0 <= j < air.rounds_z() ==> red(shift_z(env, air.idx_rem_z())) == 0
    &&& r != h - 1 && 0 <= j < 7 ==> vanish(fold_polys(c, n))
    &&& j == 7 ==> econg(pair(c, 0), pair(env.pis, 2 * nb + air.ni_z()))
}

/// The tile of row `r`, and the row in it.
pub open spec fn p4_place(air: Phase4AAir, r: int) -> (int, int) {
    let d = r - air.tr_z();
    if d < 0 || d / 8 >= air.n_queries {
        (-1, -1)
    } else {
        (d / 8, d % 8)
    }
}

/// What the periodic columns hold at row `r`.
pub open spec fn p4_per(air: Phase4AAir, p: Seq<int>, r: int) -> bool {
    let (q, j) = p4_place(air, r);
    let f = air.p_tf_z();
    let tr = air.tr_z();
    &&& round_row(p, r % 32)
    &&& p[11] == last_z(r)
    &&& p[12] == count_of(air.counts@, r / 32)
    &&& p[13] == count_of(air.counts@, r / 32 + 1)
    &&& p[14] == (if count_of(air.counts@, r / 32 + 1) == 0 { 1int } else { 0int })
    &&& forall|i: int|
        15 <= i < 15 + air.nb_z() + air.ni_z() ==> #[trigger] p[i] == air.transcript().col(i, r)
    &&& forall|i: int|
        0 <= i < air.rounds_z() ==> #[trigger] p[air.p_round_z(0) + i] == (if i == j {
            1int
        } else {
            0int
        })
    &&& forall|i: int|
        0 <= i < air.n_queries ==> #[trigger] p[air.p_query_z(0) + i] == (if j == 0 && i == q {
            1int
        } else {
            0int
        })
    &&& p[f] == (if j == 0 { 1int } else { 0int })
    &&& p[f + 1] == (if j == 7 { 1int } else { 0int })
    &&& p[f + 2] == (if r < tr - 1 { 1int } else { 0int })
    &&& p[f + 3] == (if j >= 0 { 1int } else { 0int })
}

proof fn lemma_p4_hot(air: Phase4AAir, r: int, row: int)
    requires
        0 <= row < 8,
        0 <= r,
    ensures
        hot_z(r, air.tr_z(), 8, air.n_queries as int, row) == (if p4_place(air, r).1 == row {
            1int
        } else {
            0int
        }),
{
    let d = r - air.tr_z();
    let e = d - row;
    if d >= 0 {
        if d % 8 == row {
            assert(e % 8 == 0 && e / 8 == d / 8);
        } else if e >= 0 {
            assert(e % 8 != 0);
        }
    }
}

pub proof fn lemma_p4_env(air: Phase4AAir, t: Seq<Seq<int>>, pv: Seq<int>, r: int)
    requires
        air.fits(),
        air.rounds_z() <= 7,
        0 <= r < air.height_z(),
    ensures
        p4_per(air, row_env(t, air.cols_z(), pv, r).per, r),
{
    air.lemma_height();
    let c = air.cols_z();
    let p = row_env(t, c, pv, r).per;
    let h = air.height_z();
    vstd::arithmetic::div_mod::lemma_small_mod(r as nat, h as nat);
    assert forall|j: int| 0 <= j < ROUND_COLS implies #[trigger] p[j] == round_col(j, r % 32) by {
        assert(c[j].len() == 32);
    }
    assert(p[11] == last_z(r)) by {
        assert(c[11].len() == 32);
    }
    assert forall|j: int| 12 <= j < air.p_tf_z() + 4 implies #[trigger] p[j] == air.col(j, r) by {
        assert(c[j].len() == h);
    }
    assert(p[12] == air.col(12, r) && p[13] == air.col(13, r) && p[14] == air.col(14, r));
    let (q, j) = p4_place(air, r);
    assert forall|i: int| 0 <= i < air.rounds_z() implies #[trigger] p[air.p_round_z(0) + i] == (if i
        == j {
        1int
    } else {
        0int
    }) by {
        assert(p[air.p_round_z(0) + i] == air.col(air.p_round_z(0) + i, r));
        lemma_p4_hot(air, r, i);
    }
    assert forall|i: int|
        0 <= i < air.n_queries implies #[trigger] p[air.p_query_z(0) + i] == (if j == 0 && i == q {
        1int
    } else {
        0int
    }) by {
        assert(p[air.p_query_z(0) + i] == air.col(air.p_query_z(0) + i, r));
        let d = r - air.tr_z();
        if d == 8 * i {
            assert(d / 8 == i && d % 8 == 0);
        }
    }
    lemma_p4_hot(air, r, 0);
    lemma_p4_hot(air, r, 7);
    let f = air.p_tf_z();
    assert(p[f] == air.col(f, r) && p[f + 1] == air.col(f + 1, r) && p[f + 2] == air.col(f + 2, r)
        && p[f + 3] == air.col(f + 3, r));
}

/// The constraints at a row demand just that.
pub proof fn lemma_p4_holds(air: Phase4AAir, env: Env, r: int)
    requires
        air.fits(),
        air.rounds_z() <= 7,
        0 <= r < air.height_z(),
        p4_per(air, env.per, r),
    ensures
        ({
            let (q, j) = p4_place(air, r);
            holds(air.polys(env), r, air.height_z()) <==> p4_demand(air, env, r, q, j)
        }),
{
    reveal(p4_demand);
    let (q, j) = p4_place(air, r);
    let h = air.height_z();
    let p = env.per;
    let f = air.p_tf_z();
    let nb = air.nb_z();
    air.lemma_height();
    let none = Seq::<(Gate, int)>::empty();
    assert(holds(none, r, h));
    let stt = p[f + 2];
    lemma_transcript_list(none, env, stt, stt, nb, air.index_binds@, r, h);
    let a1 = transcript_list(none, env, stt, stt, nb, air.index_binds@);
    assert(p[17] == air.transcript().col(17, r));
    lemma_carrier_list(a1, env, air.carry_z(), r, h);
    let a2 = carrier_list(a1, env, air.carry_z());
    assert(a2 == air.transcript_polys(env));
    let n = air.n_terms as int;
    lemma_bound_head(a2, env, p[f], air.carry_z(), n, r, h);
    let a3 = bound_head_list(a2, env, p[f], air.carry_z(), n);
    let b = beta_polys(env, air.p_round_z(0), air.rounds_z());
    lemma_beta_row(env, air.p_round_z(0), air.rounds_z(), j);
    lemma_holds_gated(Gate::Always, b, r, h);
    lemma_holds_concat(a3, gated(Gate::Always, b), r, h);
    let a4 = a3 + gated(Gate::Always, b);
    let nq = air.n_queries as nat;
    let at = if j == 0 {
        q
    } else {
        -1
    };
    lemma_select_one(p, air.p_query_z(0), env.pis, 2 * nb, nq, at);
    let sel = per_select(p, air.p_query_z(0), env.pis, 2 * nb, nq);
    lemma_index_list(a4, env, p[f], sel, air.sb_x_z(), r, h);
    let a5 = index_list(a4, env, p[f], sel, air.sb_x_z());
    assert(a5 == air.head_polys(a2, env));
    lemma_sum_one(p, air.p_round_z(0), air.rounds_z() as nat, j);
    let mask = per_sum(p, air.p_round_z(0), air.rounds_z() as nat);
    let x = (Gate::Transition, mask * shift_z(env, air.idx_rem_z()));
    lemma_holds_push(a5, x, r, h);
    lemma_one(mask, shift_z(env, air.idx_rem_z()));
    let a6 = a5.push(x);
    let on = p[f + 3] * (1 - p[f + 1]);
    assert(on == (if 0 <= j < 7 { 1int } else { 0int })) by (nonlinear_arith)
        requires
            on == p[f + 3] * (1 - p[f + 1]),
            p[f + 3] == (if j >= 0 { 1int } else { 0int }),
            p[f + 1] == (if j == 7 { 1int } else { 0int }),
            j <= 7,
    ;
    lemma_fold_list(a6, env, on, r, h);
    lemma_accept_list(fold_list(a6, env, on), env, p[f + 1], 2 * nb + air.ni_z(), r, h);
}

/// What is demanded of each row of a trace that meets the constraints.
proof fn lemma_p4_row(air: Phase4AAir, t: Seq<Seq<int>>, pv: Seq<int>, r: int)
    requires
        air.fits(),
        air.rounds_z() <= 7,
        t.len() == air.height_z(),
        satisfied(|env: Env| air.polys(env), t, air.cols_z(), pv),
        0 <= r < t.len(),
    ensures
        ({
            let e = row_env(t, air.cols_z(), pv, r);
            let (q, j) = p4_place(air, r);
            &&& p4_per(air, e.per, r)
            &&& p4_demand(air, e, r, q, j)
            &&& e.cur == t[r]
            &&& r + 1 < t.len() ==> e.nxt == t[r + 1]
            &&& e.pis == pv
        }),
{
    let polys = |env: Env| air.polys(env);
    let e = row_env(t, air.cols_z(), pv, r);
    assert(holds(polys(e), r, t.len() as int));
    lemma_p4_env(air, t, pv, r);
    lemma_p4_holds(air, e, r);
}

/// The transcript region of a trace that meets the constraints.
proof fn lemma_p4_region(air: Phase4AAir, t: Seq<Seq<int>>, pv: Seq<int>)
    requires
        air.fits(),
        air.rounds_z() <= 7,
        air.transcript().wf(),
        t.len() == air.height_z(),
        canonical_cells(t, 8),
        satisfied(|env: Env| air.polys(env), t, air.cols_z(), pv),
    ensures
        follows(trace_inputs(t, np2(air.counts.len() as int) as nat), air.counts@),
        bound(air.transcript(), trace_inputs(t, np2(air.counts.len() as int) as nat), pv),
{
    let ft = air.transcript();
    air.lemma_height();
    let pc = air.cols_z();
    assert forall|r: int| 0 <= r < ft.padded_z() * 32 implies region_row(
        ft,
        #[trigger] row_env(t, pc, pv, r),
        r,
    ) by {
        reveal(p4_demand);
        lemma_p4_row(air, t, pv, r);
        let p = row_env(t, pc, pv, r).per;
        assert forall|i: int| 0 <= i < 15 + ft.binds.len() + ft.index_binds@.len() implies #[trigger]
            p[i] == region_col(ft, i, r) by {}
    }
    lemma_region(ft, t, pc, pv);
}

/// The combination challenge is the same on all rows: the third bound one.
proof fn lemma_p4_alpha(air: Phase4AAir, t: Seq<Seq<int>>, pv: Seq<int>, r: int)
    requires
        air.fits(),
        air.rounds_z() <= 7,
        air.transcript().wf(),
        t.len() == air.height_z(),
        canonical_cells(t, 8),
        satisfied(|env: Env| air.polys(env), t, air.cols_z(), pv),
        0 <= r < t.len(),
    ensures
        econg(pair(t[r], air.carry_z()), pair(pv, 4)),
{
    air.lemma_height();
    let carry = air.carry_z();
    assert forall|i: int|
        #![trigger t[i]]
        0 <= i < t.len() - 1 implies econg(pair(t[i + 1], carry), pair(t[i], carry)) by {
        lemma_p4_row(air, t, pv, i);
        reveal(p4_demand);
    }
    assert(air.binds@[2] < air.transcript().padded_z());
    let at = air.binds@[2] * 32 + 31;
    lemma_p4_row(air, t, pv, at);
    let e = row_env(t, air.cols_z(), pv, at);
    assert(e.per[17] == air.transcript().col(17, at));
    assert(vanish(bind_polys(t[at], e.per, pv, air.nb_z())) && squeezed(t[at], pair(t[at], carry))) by {
        reveal(p4_demand);
    }
    let b = bind_polys(t[at], e.per, pv, air.nb_z());
    assert(red(b[4]) == 0 && red(b[5]) == 0);
    lemma_one(1, t[at][3] - pv[4]);
    lemma_one(1, t[at][2] - pv[5]);
    lemma_cong_diff(t[at][3], pv[4]);
    lemma_cong_diff(t[at][2], pv[5]);
    if r <= at {
        lemma_held(t, carry, r, at);
    } else {
        lemma_held(t, carry, at, r);
    }
}

/// Whatever trace meets the constraints, its first rows are a transcript that follows the schedule
/// and gives the public challenges and index elements, and every tile reads its challenges and its
/// index from there and folds its reduced opening to the public evaluation.
pub proof fn law_phase4a_sound(air: Phase4AAir, t: Seq<Seq<int>>, pv: Seq<int>, q: int)
    requires
        air.fits(),
        air.rounds_z() <= 7,
        air.transcript().wf(),
        t.len() == air.height_z(),
        canonical_cells(t, 8),
        satisfied(|env: Env| air.polys(env), t, air.cols_z(), pv),
        0 <= q < air.n_queries,
    ensures
        follows(trace_inputs(t, np2(air.counts.len() as int) as nat), air.counts@),
        bound(air.transcript(), trace_inputs(t, np2(air.counts.len() as int) as nat), pv),
        tile_bound(t, air.tr_z() + 8 * q, pv, air.nb_z(), q, air.idx_rem_z()),
        econg(
            pair(pv, 2 * air.nb_z() + air.ni_z()),
            fold_along(
                head_opening(t[air.tr_z() + 8 * q], air.n_terms as int),
                t,
                air.tr_z() + 8 * q,
                7,
            ),
        ),
{
    lemma_p4_region(air, t, pv);
    air.lemma_height();
    let base = air.tr_z() + 8 * q;
    let n = air.n_terms as int;
    let rem = air.idx_rem_z();
    assert forall|j: int| 0 <= j < 8 implies p4_place(air, #[trigger] (base + j)) == (q, j) by {
        let d = base + j - air.tr_z();
        assert(d / 8 == q && d % 8 == j);
    }
    assert(p4_place(air, base + 0) == (q, 0int));
    lemma_p4_row(air, t, pv, base);
    lemma_p4_alpha(air, t, pv, base);
    let felt = pv[2 * air.nb_z() + q];
    assert(head_holds(t[base], n) && econg(pair(t[base], 29), pair(t[base], air.carry_z()))
        && index_holds(t[base], felt, air.sb_x_z())) by {
        reveal(p4_demand);
    }
    lemma_head_sound(t[base], n);
    lemma_index_holds(t[base], felt, air.sb_x_z());
    assert forall|j: int|
        #![trigger t[base + j]]
        0 <= j < 7 implies vanish(fold_polys(t[base + j], t[base + j + 1])) by {
        assert(p4_place(air, base + j) == (q, j));
        lemma_p4_row(air, t, pv, base + j);
        reveal(p4_demand);
    }
    lemma_fold_along(t, head_opening(t[base], n), base, 7);
    assert(econg(pair(t[base + 7], 0), pair(pv, 2 * air.nb_z() + air.ni_z()))) by {
        assert(p4_place(air, base + 7) == (q, 7int));
        lemma_p4_row(air, t, pv, base + 7);
        reveal(p4_demand);
    }
    assert forall|j: int|
        #![trigger t[base + j]]
        0 <= j < air.rounds_z() implies econg(pair(t[base + j], 4), pair(pv, 6 + 2 * j)) by {
        assert(p4_place(air, base + j) == (q, j));
        lemma_p4_row(air, t, pv, base + j);
        reveal(p4_demand);
    }
    assert forall|k: nat|
        #![trigger slots_z(t, base, k)]
        k <= air.rounds_z() implies cong(
        red(felt) % 1024,
        slots_z(t, base, k) + pow2(k) * t[base + k][rem],
    ) by {
        assert forall|j: int|
            #![trigger t[base + j]]
            0 <= j < k implies red(t[base + j][rem] - 2 * t[base + j + 1][rem] - t[base + j][6]) == 0 by {
            assert(p4_place(air, base + j) == (q, j));
            lemma_p4_row(air, t, pv, base + j);
            reveal(p4_demand);
        }
        lemma_shift(t, base, rem, k);
    }
}

} // verus!
