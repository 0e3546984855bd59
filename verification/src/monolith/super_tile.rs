//! The arithmetic of a query and the Merkle path of its opened trace value in one tile: the value
//! that the reduced opening uses is the one that is hashed.
use super::cells::{
    bare_chain_cells, bare_chain_rows, extend, fold_one, head_cells, head_row, point_z, put,
    query_is_ok, query_ok, rounds_ok, running, zero_cells, zeros, FoldRound, Query,
};
use super::fused::{leaf_exprs, leaf_polys};
use super::merkle_tile::{
    end_exprs, end_polys, leaf_digest, leaf_state, lemma_end_polys, lemma_mt_row_cells,
    lemma_mt_step, mt_build_trace, mt_row, mt_trace,
};
use super::parts::{
    accept_list, accept_part, fold_list, fold_part, opening_list, opening_part, per_sum,
    per_sum_expr, point_list, point_part, DP_LOG_HEIGHT,
};
use super::path_rows::{lemma_path_rows, path_at, path_holds};
use super::query::opening_of;
use super::query_tile::{fold_along, head_at, lemma_fold_along, lemma_terms_at, lemma_terms_len};
use super::tiled::{
    head_holds, head_opening, lemma_accept_list, lemma_fold_list, lemma_head_list, lemma_head_sound,
    lemma_one, lemma_switch, lemma_tile_head,
};
use crate::cols::{hot_col, hot_z, last_col, last_z, tail_col, tail_z};
use crate::expr::{
    bit_poly, cells, cst, cur, denote, emit, emit_all, Constraint, Env, Expr, gated, Gate, holds,
    lemma_holds_concat, lemma_holds_gated, lemma_holds_push, nxt, pair, per, row_env, satisfied,
    scale_all, scaled, Trace, vals, vanish,
};
use crate::field::{cong, econg, ints, lemma_cong_diff, lemma_finv, lemma_red_small, red, P};
use crate::fri_merkle::{canonical_cells, lemma_steps_follow, path_ok};
use crate::gadget_laws::{fold_group, lemma_fold_complete};
use crate::gadgets::{bit_z, fold_polys, link_exprs, link_polys};
use crate::merkle::{path_z, root_of, take4, Digest};
use crate::poseidon2::{
    lanes, lemma_round_idle, periodic_table, red_seq, round_col, round_exprs, round_polys,
    round_row, step_z, ROUND_COLS,
};
use crate::prime::law_inverse_exists;
use vstd::prelude::*;

verus! {

pub const ST_SIB: usize = 8;

pub const ST_BIT: usize = 12;

/// The column that holds the opened value on all rows of a tile.
pub const ST_CARRY: usize = 67;

pub const ST_W: usize = 68;

pub const ST_LEAF_BLOCK: usize = 1;

pub const ST_TERMINAL_BLOCK: usize = 5;

/// Rows of a tile: eight blocks.
pub const ST_PERIOD: usize = 256;

/// Periodic columns: the last row of each block, the Merkle blocks, the head of a tile, its fold
/// rows, the end of its chain, the head of its leaf block, the end of its path, its last row.
pub const ST_P_BLOCK_LAST: usize = 11;

pub const ST_P_SPOS: usize = 12;

pub const ST_P_TF: usize = 13;

pub const ST_P_ROUND0: usize = 14;

pub const ST_P_TL: usize = 20;

pub const ST_P_LEAF: usize = 21;

pub const ST_P_TERM: usize = 22;

pub const ST_P_ST_LAST: usize = 23;

pub const ST_N_PERIODIC: usize = 24;

/// One tile per query. The public values are the evaluation that every chain ends in, then the
/// digest that every path ends in.
pub struct SuperTileAir {
    pub n_queries: usize,
}

/// The arithmetic of a tile.
pub open spec fn st_arith(env: Env) -> Seq<(Gate, int)> {
    let (tf, tl) = (env.per[13], env.per[20]);
    accept_list(
        fold_list(
            opening_list(point_list(Seq::empty(), env, tf), env, tf, 4),
            env,
            per_sum(env.per, 14, 6),
        ),
        env,
        tl,
        0,
    )
}

/// The carrier of the opened value, and the Merkle blocks.
#[verifier::opaque]
pub open spec fn st_polys(env: Env) -> Seq<(Gate, int)> {
    let p = env.per;
    let (c, n) = (env.cur, env.nxt);
    st_arith(env).push((Gate::Transition, (1 - p[23]) * (n[67] - c[67]))).push(
        (Gate::Always, p[13] * (c[67] - c[35])),
    ) + gated(Gate::Transition, scaled(p[12], round_polys(lanes(c, 0), lanes(n, 0), p))) + gated(
        Gate::Always,
        leaf_polys(c, p[21], 67, 1),
    ) + gated(Gate::Always, seq![p[12] * bit_z(c[12])]) + gated(
        Gate::Transition,
        scaled(p[12] * p[11] * (1 - p[23]), link_polys(c, n, 8, 12)),
    ) + gated(Gate::Always, end_polys(env, p[22], 2))
}

/// Entry `r` of periodic column `j` for `nq` tiles.
pub open spec fn st_col(nq: int, j: int, r: int) -> int {
    let tile = |row: int| hot_z(r, 0, 256, nq, row);
    if j < 11 {
        round_col(j, r)
    } else if j == 11 {
        last_z(r)
    } else if j == 12 {
        tail_z(r, 0, 256, nq, 32)
    } else if j == 13 {
        tile(0)
    } else if j < 20 {
        tile(j - 14)
    } else if j == 20 {
        tile(6)
    } else if j == 21 {
        tile(32)
    } else if j == 22 {
        tile(191)
    } else {
        tile(255)
    }
}

pub open spec fn st_cols(nq: int) -> Seq<Seq<int>> {
    Seq::new(
        24,
        |j: int|
            Seq::new(
                if j < 11 {
                    32nat
                } else {
                    (256 * nq) as nat
                },
                |r: int| st_col(nq, j, r),
            ),
    )
}

impl SuperTileAir {
    /// The trace has a height.
    pub open spec fn wf(self) -> bool {
        256 * self.n_queries <= usize::MAX
    }

    pub fn height(&self) -> (r: usize)
        requires
            self.wf(),
        ensures
            r == 256 * self.n_queries,
    {
        self.n_queries * ST_PERIOD
    }

    pub fn width(&self) -> (r: usize)
        ensures
            r == ST_W,
    {
        ST_W
    }

    pub fn num_public_values(&self) -> (r: usize)
        ensures
            r == 6,
    {
        6
    }

    pub fn num_periodic_columns(&self) -> (r: usize)
        ensures
            r == ST_N_PERIODIC,
    {
        ST_N_PERIODIC
    }

    pub fn periodic(&self) -> (cols: Vec<Vec<u64>>)
        requires
            self.wf(),
        ensures
            cells(cols@) == st_cols(self.n_queries as int),
    {
        let h: usize = self.height();
        let nq: usize = self.n_queries;
        let mut cols: Vec<Vec<u64>> = periodic_table();
        cols.push(last_col(h));
        cols.push(tail_col(h, 0, ST_PERIOD, nq, 32));
        cols.push(hot_col(h, 0, ST_PERIOD, nq, 0));
        for r in 0..6
            invariant
                h == 256 * nq,
                cols.len() == 14 + r,
                forall|j: int|
                    #![trigger cols@[j]]
                    0 <= j < 14 + r ==> ints(cols@[j]@) =~= st_cols(nq as int)[j],
        {
            cols.push(hot_col(h, 0, ST_PERIOD, nq, r));
        }
        cols.push(hot_col(h, 0, ST_PERIOD, nq, 6));
        cols.push(hot_col(h, 0, ST_PERIOD, nq, 32));
        cols.push(hot_col(h, 0, ST_PERIOD, nq, 191));
        cols.push(hot_col(h, 0, ST_PERIOD, nq, 255));
        proof {
            let want = st_cols(nq as int);
            assert forall|j: int| 0 <= j < 24 implies #[trigger] cells(cols@)[j] == want[j] by {
                assert(ints(cols@[j]@) =~= want[j]);
            }
            assert(cells(cols@) =~= want);
        }
        cols
    }

    pub fn eval(&self) -> (r: Vec<Constraint>)
        ensures
            forall|env: Env| #[trigger] denote(r@, env) == st_polys(env),
    {
        reveal(st_polys);
        let tf: Expr = per(ST_P_TF);
        let tl: Expr = per(ST_P_TL);
        let spos: Expr = per(ST_P_SPOS);
        let one: Expr = cst(1);
        let mut out: Vec<Constraint> = Vec::new();
        proof {
            assert forall|env: Env| #[trigger] denote(out@, env) == Seq::<(Gate, int)>::empty() by {
                assert(denote(out@, env) =~= Seq::<(Gate, int)>::empty());
            }
        }
        point_part(&mut out, &tf);
        opening_part(&mut out, &tf, 4);
        fold_part(&mut out, &per_sum_expr(ST_P_ROUND0, 6));
        accept_part(&mut out, &tl, 0);
        let inside: Expr = one.minus(&per(ST_P_ST_LAST));
        emit(&mut out, Gate::Transition, inside.times(&nxt(ST_CARRY).minus(&cur(ST_CARRY))));
        emit(&mut out, Gate::Always, tf.times(&cur(ST_CARRY).minus(&cur(35))));
        emit_all(&mut out, Gate::Transition, &scale_all(&spos, &round_exprs(0)));
        emit_all(&mut out, Gate::Always, &leaf_exprs(&per(ST_P_LEAF), ST_CARRY, 1));
        let bit: Vec<Expr> = vec![spos.times(&bit_poly(&cur(ST_BIT)))];
        proof {
            assert forall|env: Env| #[trigger] vals(bit@, env) == seq![env.per[12] * bit_z(
                env.cur[12],
            )] by {
                assert(vals(bit@, env) =~= seq![env.per[12] * bit_z(env.cur[12])]);
            }
        }
        emit_all(&mut out, Gate::Always, &bit);
        let link: Expr = spos.times(&per(ST_P_BLOCK_LAST)).times(&inside);
        emit_all(&mut out, Gate::Transition, &scale_all(&link, &link_exprs(ST_SIB, ST_BIT)));
        emit_all(&mut out, Gate::Always, &end_exprs(&per(ST_P_TERM), 2));
        out
    }
}

/// What a tile needs of a query: its arithmetic, its opened trace value, and the path of that value.
#[derive(Debug)]
pub struct TileQuery {
    pub query: Query,
    pub v: u64,
    pub path: Vec<(Digest, bool)>,
}

/// The cells of an arithmetic row with room for `n` terms.
pub open spec fn arith_row(q: Query, n: int, r: int) -> Seq<int> {
    if r <= 6 {
        bare_chain_cells(q.ro@, q.rounds@, r) + (if r == 0 {
            head_cells(q, 10) + zeros(9 * (n - q.terms.len()))
        } else {
            zeros(22 + 9 * n)
        })
    } else {
        zeros(31 + 9 * n)
    }
}

/// The arithmetic rows of a tile: the first block.
pub fn arith_rows(q: &Query, n: usize) -> (t: Trace)
    requires
        9 * n + 300 <= usize::MAX,
        q.terms.len() <= n,
        query_ok(*q, 10),
    ensures
        t.len() == 32,
        forall|r: int| 0 <= r < 32 ==> ints((#[trigger] t@[r])@) == arith_row(*q, n as int, r),
{
    let chain: Trace = bare_chain_rows(q.ro, &q.rounds, 7);
    let mut t: Trace = Vec::new();
    for r in 0..32
        invariant
            9 * n + 300 <= usize::MAX,
            q.terms.len() <= n,
            query_ok(*q, 10),
            chain.len() == 7,
            forall|i: int|
                0 <= i < 7 ==> ints((#[trigger] chain@[i])@) == bare_chain_cells(
                    q.ro@,
                    q.rounds@,
                    i,
                ),
            t.len() == r,
            forall|i: int| 0 <= i < r ==> ints((#[trigger] t@[i])@) == arith_row(*q, n as int, i),
    {
        let mut row: Vec<u64> = Vec::new();
        assert(ints(row@) =~= Seq::<int>::empty());
        if r <= 6 {
            extend(&mut row, &chain[r]);
            assert(ints(row@) =~= bare_chain_cells(q.ro@, q.rounds@, r as int));
            if r == 0 {
                let mut head: Vec<u64> = head_row(q, DP_LOG_HEIGHT);
                extend(&mut head, &zero_cells(9 * (n - q.terms.len())));
                extend(&mut row, &head);
            } else {
                extend(&mut row, &zero_cells(22 + 9 * n));
            }
        } else {
            row = zero_cells(31 + 9 * n);
        }
        t.push(row);
    }
    t
}

/// Row `r` of the tile of a query.
#[verifier::opaque]
pub open spec fn st_tile_row(q: TileQuery, r: int) -> Seq<int> {
    (if r < 32 {
        arith_row(q.query, 4, r)
    } else {
        mt_row(seq![q.v as int], path_z(q.path@), 7, r - 32) + zeros(54)
    }).push(q.v as int)
}

pub open spec fn st_trace(qs: Seq<TileQuery>) -> Seq<Seq<int>> {
    Seq::new(256 * qs.len(), |r: int| st_tile_row(qs[r / 256], r % 256))
}

/// Every query can be put into a tile.
pub open spec fn tiles_ok(qs: Seq<TileQuery>) -> bool {
    forall|i: int|
        #![trigger qs[i]]
        0 <= i < qs.len() ==> query_ok(qs[i].query, 10) && qs[i].query.terms.len() <= 4
            && qs[i].path.len() == 4
}

/// The rows of a tile.
fn st_tile_rows(q: &TileQuery) -> (t: Trace)
    requires
        query_ok(q.query, 10),
        q.query.terms.len() <= 4,
        q.path.len() == 4,
    ensures
        t.len() == 256,
        forall|r: int| 0 <= r < 256 ==> ints((#[trigger] t@[r])@) == st_tile_row(*q, r),
{
    let arith: Trace = arith_rows(&q.query, 4);
    let leaf: [u64; 1] = [q.v];
    let ghost lz = seq![q.v as int];
    assert(ints(leaf@) =~= lz);
    let (merkle, _root) = mt_build_trace(&leaf, q.path.as_slice(), 7);
    proof {
        assert(merkle.len() == 224) by {
            assert(cells(merkle@).len() == 224);
        }
        assert forall|i: int| 0 <= i < 224 implies ints((#[trigger] merkle@[i])@) == mt_row(
            lz,
            path_z(q.path@),
            7,
            i,
        ) by {
            assert(cells(merkle@)[i] == mt_trace(lz, path_z(q.path@), 7)[i]);
        }
    }
    let mut t: Trace = Vec::new();
    for r in 0..256
        invariant
            arith.len() == 32,
            merkle.len() == 224,
            lz == seq![q.v as int],
            forall|i: int|
                0 <= i < 32 ==> ints((#[trigger] arith@[i])@) == arith_row(q.query, 4, i),
            forall|i: int|
                0 <= i < 224 ==> ints((#[trigger] merkle@[i])@) == mt_row(
                    lz,
                    path_z(q.path@),
                    7,
                    i,
                ),
            t.len() == r,
            forall|i: int| 0 <= i < r ==> ints((#[trigger] t@[i])@) == st_tile_row(*q, i),
    {
        reveal(st_tile_row);
        let mut row: Vec<u64> = Vec::new();
        assert(ints(row@) =~= Seq::<int>::empty());
        if r < 32 {
            extend(&mut row, &arith[r]);
            assert(ints(row@) =~= arith_row(q.query, 4, r as int));
        } else {
            extend(&mut row, &merkle[r - 32]);
            assert(ints(row@) =~= mt_row(lz, path_z(q.path@), 7, r - 32));
            extend(&mut row, &zero_cells(54));
        }
        put(&mut row, q.v);
        t.push(row);
    }
    t
}

/// Fills the trace of a list of queries, one tile each.
pub fn st_build_trace(per_query: &Vec<TileQuery>) -> (t: Trace)
    requires
        256 * per_query.len() <= usize::MAX,
        tiles_ok(per_query@),
    ensures
        cells(t@) == st_trace(per_query@),
{
    let nq: usize = per_query.len();
    let mut t: Trace = Vec::new();
    for q in 0..nq
        invariant
            nq == per_query.len(),
            tiles_ok(per_query@),
            t.len() == 256 * q,
            forall|i: int|
                0 <= i < 256 * q ==> ints((#[trigger] t@[i])@) == st_tile_row(
                    per_query@[i / 256],
                    i % 256,
                ),
    {
        assert(query_ok(per_query@[q as int].query, 10));
        let mut rows: Trace = st_tile_rows(&per_query[q]);
        let ghost (before, tile) = (t@, rows@);
        t.append(&mut rows);
        proof {
            assert forall|i: int| 0 <= i < 256 * (q + 1) implies ints((#[trigger] t@[i])@)
                == st_tile_row(per_query@[i / 256], i % 256) by {
                if i < 256 * q {
                    assert(t@[i] == before[i]);
                } else {
                    assert(t@[i] == tile[i - 256 * q]);
                    assert(i / 256 == q && i % 256 == i - 256 * q);
                }
            }
        }
    }
    assert(cells(t@) =~= st_trace(per_query@));
    t
}

/// Fills the trace of a list of queries, unless one of them cannot be put into a tile.
pub fn try_st_build_trace(per_query: &Vec<TileQuery>) -> (r: Option<Trace>)
    requires
        256 * per_query.len() <= usize::MAX,
    ensures
        r is Some <==> tiles_ok(per_query@),
        r matches Some(t) ==> cells(t@) == st_trace(per_query@),
{
    let m: usize = per_query.len();
    for i in 0..m
        invariant
            m == per_query.len(),
            forall|j: int|
                #![trigger per_query@[j]]
                0 <= j < i ==> query_ok(per_query@[j].query, 10)
                    && per_query@[j].query.terms.len() <= 4 && per_query@[j].path.len() == 4,
    {
        let ok: bool = query_is_ok(&per_query[i].query, DP_LOG_HEIGHT)
            && per_query[i].query.terms.len() <= 4 && per_query[i].path.len() == 4;
        if !ok {
            let ghost bad = per_query@[i as int];
            assert(!(query_ok(bad.query, 10) && bad.query.terms.len() <= 4 && bad.path.len() == 4));
            return None;
        }
    }
    Some(st_build_trace(per_query))
}

/// What the periodic columns hold at row `r`.
proof fn lemma_st_env(t: Seq<Seq<int>>, pv: Seq<int>, nq: int, r: int)
    requires
        0 <= r < 256 * nq,
    ensures
        ({
            let p = row_env(t, st_cols(nq), pv, r).per;
            let j = r % 256;
            &&& round_row(p, r % 32)
            &&& p[11] == last_z(r)
            &&& p[12] == (if j >= 32 { 1int } else { 0int })
            &&& p[13] == (if j == 0 { 1int } else { 0int })
            &&& per_sum(p, 14, 6) == (if j < 6 { 1int } else { 0int })
            &&& p[20] == (if j == 6 { 1int } else { 0int })
            &&& p[21] == (if j == 32 { 1int } else { 0int })
            &&& p[22] == (if j == 191 { 1int } else { 0int })
            &&& p[23] == (if j == 255 { 1int } else { 0int })
        }),
{
    let c = st_cols(nq);
    let p = row_env(t, c, pv, r).per;
    let h = 256 * nq;
    vstd::arithmetic::div_mod::lemma_small_mod(r as nat, h as nat);
    assert forall|j: int| 0 <= j < ROUND_COLS implies #[trigger] p[j] == round_col(j, r % 32) by {
        assert(c[j].len() == 32);
    }
    assert forall|j: int| 11 <= j < 24 implies #[trigger] p[j] == st_col(nq, j, r) by {
        assert(c[j].len() == h);
    }
    let j = r % 256;
    assert forall|row: int| 0 <= row < 256 implies #[trigger] hot_z(r, 0, 256, nq, row) == (if j
        == row {
        1int
    } else {
        0int
    }) by {
        let d = r - row;
        if j == row {
            assert(d % 256 == 0 && d / 256 == r / 256);
        } else if d >= 0 {
            assert(d % 256 != 0);
        }
    }
    reveal_with_fuel(per_sum, 7);
    assert(p[14] == st_col(nq, 14, r) && p[15] == st_col(nq, 15, r) && p[16] == st_col(nq, 16, r)
        && p[17] == st_col(nq, 17, r) && p[18] == st_col(nq, 18, r) && p[19] == st_col(nq, 19, r));
    assert(p[12] == st_col(nq, 12, r) && p[13] == st_col(nq, 13, r) && p[20] == st_col(nq, 20, r)
        && p[21] == st_col(nq, 21, r) && p[22] == st_col(nq, 22, r) && p[23] == st_col(nq, 23, r));
}

/// What the constraints demand at row `j` of a tile.
#[verifier::opaque]
pub open spec fn st_demand(env: Env, j: int, last: bool) -> bool {
    let (c, n, p) = (env.cur, env.nxt, env.per);
    &&& j == 0 ==> head_holds(c, 4) && cong(c[67], c[35])
    &&& j < 6 && !last ==> vanish(fold_polys(c, n))
    &&& j == 6 ==> econg(pair(c, 0), pair(env.pis, 0))
    &&& j != 255 && !last ==> cong(n[67], c[67])
    &&& j >= 32 && !last ==> vanish(round_polys(lanes(c, 0), lanes(n, 0), p))
    &&& j == 32 ==> cong(c[0], c[67]) && forall|i: int| 1 <= i < 8 ==> red(#[trigger] c[i]) == 0
    &&& j >= 32 ==> red(bit_z(c[12])) == 0
    &&& j >= 32 && j % 32 == 31 && j != 255 && !last ==> vanish(link_polys(c, n, 8, 12))
    &&& j == 191 ==> forall|k: int| 0 <= k < 4 ==> cong(#[trigger] env.pis[2 + k], c[k])
}

pub proof fn lemma_leaf_polys(row: Seq<int>, on: int, from: int, n: int)
    requires
        on == 0 || on == 1,
        0 <= n <= 8,
    ensures
        vanish(leaf_polys(row, on, from, n)) <==> (on == 1 ==> (forall|i: int|
            0 <= i < n ==> cong(#[trigger] row[i], row[from + i])) && (forall|i: int|
            n <= i < 8 ==> red(#[trigger] row[i]) == 0)),
{
    let p = leaf_polys(row, on, from, n);
    assert forall|i: int| 0 <= i < 8 implies (red(#[trigger] p[i]) == 0 <==> (on == 1 ==> if i < n {
        cong(row[i], row[from + i])
    } else {
        red(row[i]) == 0
    })) by {
        if i < n {
            lemma_one(on, row[i] - row[from + i]);
            lemma_cong_diff(row[i], row[from + i]);
        } else {
            lemma_one(on, row[i] - 0);
        }
    }
    if vanish(p) && on == 1 {
        assert forall|i: int| 0 <= i < n implies cong(#[trigger] row[i], row[from + i]) by {
            assert(red(p[i]) == 0);
        }
        assert forall|i: int| n <= i < 8 implies red(#[trigger] row[i]) == 0 by {
            assert(red(p[i]) == 0);
        }
    }
    if on == 1 && (forall|i: int| 0 <= i < n ==> cong(#[trigger] row[i], row[from + i])) && (
    forall|i: int| n <= i < 8 ==> red(#[trigger] row[i]) == 0) {
        assert forall|i: int| 0 <= i < 8 implies red(#[trigger] p[i]) == 0 by {
            assert(row[i] == row[i]);
        }
    }
}

proof fn lemma_st_holds(env: Env, j: int, r: int, h: int)
    requires
        0 <= j < 256,
        j % 32 == r % 32,
        ({
            let p = env.per;
            &&& p[11] == last_z(r)
            &&& p[12] == (if j >= 32 { 1int } else { 0int })
            &&& p[13] == (if j == 0 { 1int } else { 0int })
            &&& per_sum(p, 14, 6) == (if j < 6 { 1int } else { 0int })
            &&& p[20] == (if j == 6 { 1int } else { 0int })
            &&& p[21] == (if j == 32 { 1int } else { 0int })
            &&& p[22] == (if j == 191 { 1int } else { 0int })
            &&& p[23] == (if j == 255 { 1int } else { 0int })
        }),
    ensures
        holds(st_polys(env), r, h) <==> st_demand(env, j, r == h - 1),
{
    reveal(st_polys);
    reveal(st_demand);
    let p = env.per;
    let (c, n) = (env.cur, env.nxt);
    let none = Seq::<(Gate, int)>::empty();
    assert(holds(none, r, h));
    let (tf, tl, mask) = (p[13], p[20], per_sum(p, 14, 6));
    lemma_head_list(none, env, tf, 4, r, h);
    let a1 = opening_list(point_list(none, env, tf), env, tf, 4);
    lemma_fold_list(a1, env, mask, r, h);
    let a2 = fold_list(a1, env, mask);
    lemma_accept_list(a2, env, tl, 0, r, h);
    let a3 = accept_list(a2, env, tl, 0);
    assert(a3 == st_arith(env));
    let x1 = (Gate::Transition, (1 - p[23]) * (n[67] - c[67]));
    let x2 = (Gate::Always, p[13] * (c[67] - c[35]));
    lemma_holds_push(a3, x1, r, h);
    lemma_holds_push(a3.push(x1), x2, r, h);
    lemma_one(1 - p[23], n[67] - c[67]);
    lemma_cong_diff(n[67], c[67]);
    lemma_one(p[13], c[67] - c[35]);
    lemma_cong_diff(c[67], c[35]);
    let a4 = a3.push(x1).push(x2);
    let rounds = round_polys(lanes(c, 0), lanes(n, 0), p);
    let s1 = scaled(p[12], rounds);
    lemma_switch(p[12], rounds);
    let g1 = gated(Gate::Transition, s1);
    lemma_holds_gated(Gate::Transition, s1, r, h);
    lemma_holds_concat(a4, g1, r, h);
    let s2 = leaf_polys(c, p[21], 67, 1);
    lemma_leaf_polys(c, p[21], 67, 1);
    assert(j == 32 ==> (vanish(s2) <==> cong(c[0], c[67]) && forall|i: int|
        1 <= i < 8 ==> red(#[trigger] c[i]) == 0)) by {
        if j == 32 {
            let z: int = 0;
            assert(c[67 + z] == c[67]);
            if vanish(s2) {
                assert(cong(c[z], c[67 + z]));
            }
            if cong(c[0], c[67]) && forall|i: int| 1 <= i < 8 ==> red(#[trigger] c[i]) == 0 {
                assert forall|i: int| 0 <= i < 1 implies cong(#[trigger] c[i], c[67 + i]) by {}
            }
        }
    }
    let g2 = gated(Gate::Always, s2);
    lemma_holds_gated(Gate::Always, s2, r, h);
    lemma_holds_concat(a4 + g1, g2, r, h);
    let s3 = seq![p[12] * bit_z(c[12])];
    lemma_one(p[12], bit_z(c[12]));
    let g3 = gated(Gate::Always, s3);
    lemma_holds_gated(Gate::Always, s3, r, h);
    assert(vanish(s3) <==> red(p[12] * bit_z(c[12])) == 0) by {
        if vanish(s3) {
            assert(red(s3[0]) == 0);
        }
    }
    lemma_holds_concat(a4 + g1 + g2, g3, r, h);
    let on = p[12] * p[11] * (1 - p[23]);
    let link = link_polys(c, n, 8, 12);
    assert(on == (if j >= 32 && j % 32 == 31 && j != 255 { 1int } else { 0int })) by (nonlinear_arith)
        requires
            p[12] == (if j >= 32 { 1int } else { 0int }),
            p[11] == (if j % 32 == 31 { 1int } else { 0int }),
            p[23] == (if j == 255 { 1int } else { 0int }),
            on == p[12] * p[11] * (1 - p[23]),
    ;
    let s4 = scaled(on, link);
    lemma_switch(on, link);
    let g4 = gated(Gate::Transition, s4);
    lemma_holds_gated(Gate::Transition, s4, r, h);
    lemma_holds_concat(a4 + g1 + g2 + g3, g4, r, h);
    let s5 = end_polys(env, p[22], 2);
    lemma_end_polys(env, p[22], 2);
    let g5 = gated(Gate::Always, s5);
    lemma_holds_gated(Gate::Always, s5, r, h);
    lemma_holds_concat(a4 + g1 + g2 + g3 + g4, g5, r, h);
    assert(st_polys(env) == a4 + g1 + g2 + g3 + g4 + g5);
}

/// The carrier of a tile is the same on all its rows.
proof fn lemma_st_carrier(t: Seq<Seq<int>>, base: int, j: int)
    requires
        0 <= j < 256,
        forall|i: int|
            #![trigger t[base + i]]
            0 <= i < 255 ==> cong(t[base + i + 1][67], t[base + i][67]),
    ensures
        cong(t[base + j][67], t[base][67]),
    decreases j,
{
    if j > 0 {
        lemma_st_carrier(t, base, j - 1);
        assert(t[base + (j - 1)] == t[base + j - 1]);
        assert(cong(t[base + (j - 1) + 1][67], t[base + (j - 1)][67]));
    } else {
        assert(t[base + 0] == t[base]);
    }
}

/// The demands on all rows of the tile at `base`.
#[verifier::opaque]
pub open spec fn st_rows(t: Seq<Seq<int>>, nq: int, pv: Seq<int>, base: int) -> bool {
    forall|j: int|
        0 <= j < 256 ==> st_demand(
            #[trigger] row_env(t, st_cols(nq), pv, base + j),
            j,
            base + j == t.len() - 1,
        ) && round_row(row_env(t, st_cols(nq), pv, base + j).per, j % 32)
}

proof fn lemma_st_row(t: Seq<Seq<int>>, nq: int, pv: Seq<int>, base: int, j: int)
    requires
        st_rows(t, nq, pv, base),
        0 <= j < 256,
        0 <= base,
        base + 256 <= t.len(),
    ensures
        ({
            let e = row_env(t, st_cols(nq), pv, base + j);
            &&& st_demand(e, j, base + j == t.len() - 1)
            &&& round_row(e.per, j % 32)
            &&& e.cur == t[base + j]
            &&& base + j + 1 < t.len() ==> e.nxt == t[base + j + 1]
            &&& e.pis == pv
        }),
{
    reveal(st_rows);
    let e = row_env(t, st_cols(nq), pv, base + j);
    assert(st_demand(e, j, base + j == t.len() - 1));
}

/// What the constraints demand at row `r` of a trace.
proof fn lemma_st_demand(t: Seq<Seq<int>>, nq: int, pv: Seq<int>, r: int)
    requires
        0 <= r < 256 * nq,
        t.len() == 256 * nq,
    ensures
        ({
            let e = row_env(t, st_cols(nq), pv, r);
            &&& holds(st_polys(e), r, t.len() as int) <==> st_demand(
                e,
                r % 256,
                r == t.len() - 1,
            )
            &&& round_row(e.per, r % 32)
        }),
{
    lemma_st_env(t, pv, nq, r);
    assert((r % 256) % 32 == r % 32);
    lemma_st_holds(row_env(t, st_cols(nq), pv, r), r % 256, r, t.len() as int);
}

proof fn lemma_st_rows(t: Seq<Seq<int>>, nq: int, pv: Seq<int>, q: int)
    requires
        0 <= q < nq,
        t.len() == 256 * nq,
        satisfied(|env: Env| st_polys(env), t, st_cols(nq), pv),
    ensures
        st_rows(t, nq, pv, 256 * q),
{
    reveal(st_rows);
    let polys = |env: Env| st_polys(env);
    let pc = st_cols(nq);
    let h = t.len() as int;
    let base = 256 * q;
    assert forall|j: int| 0 <= j < 256 implies st_demand(
        #[trigger] row_env(t, pc, pv, base + j),
        j,
        base + j == h - 1,
    ) && round_row(row_env(t, pc, pv, base + j).per, j % 32) by {
        let r = base + j;
        let env = row_env(t, pc, pv, r);
        assert(holds(polys(env), r, h));
        lemma_st_demand(t, nq, pv, r);
        assert(r % 256 == j && r % 32 == j % 32);
    }
}

/// The arithmetic of a tile.
proof fn lemma_st_arith(t: Seq<Seq<int>>, nq: int, pv: Seq<int>, base: int)
    requires
        0 <= base,
        base + 256 <= t.len(),
        st_rows(t, nq, pv, base),
    ensures
        econg(pair(pv, 0), fold_along(head_opening(t[base], 4), t, base, 6)),
        cong(t[base + 32][67], t[base][35]),
{
    reveal(st_demand);
    lemma_st_row(t, nq, pv, base, 0);
    lemma_head_sound(t[base], 4);
    assert forall|j: int|
        #![trigger t[base + j]]
        0 <= j < 6 implies vanish(fold_polys(t[base + j], t[base + j + 1])) by {
        lemma_st_row(t, nq, pv, base, j);
    }
    lemma_fold_along(t, head_opening(t[base], 4), base, 6);
    lemma_st_row(t, nq, pv, base, 6);
    assert forall|i: int|
        #![trigger t[base + i]]
        0 <= i < 255 implies cong(t[base + i + 1][67], t[base + i][67]) by {
        lemma_st_row(t, nq, pv, base, i);
    }
    lemma_st_carrier(t, base, 32);
}

/// The Merkle blocks of a tile.
proof fn lemma_st_path(t: Seq<Seq<int>>, nq: int, pv: Seq<int>, base: int, v: int)
    requires
        0 <= base,
        base % 32 == 0,
        base + 256 <= t.len(),
        st_rows(t, nq, pv, base),
        canonical_cells(t, 68),
        v == t[base + 32][67],
    ensures
        canonical_cells(t, 13),
        path_holds(t, base + 32, seq![v], 4),
{
    reveal(st_demand);
    let at = base + 32;
    let leaf = seq![v];
    assert(canonical_cells(t, 13)) by {
        assert forall|r: int, c: int|
            #![trigger t[r][c]]
            0 <= r < t.len() && 0 <= c < 13 implies 0 <= t[r][c] < P by {}
    }
    lemma_st_row(t, nq, pv, base, 32);
    assert(0 <= t[at][67] < P);
    lemma_red_small(v);
    assert forall|i: int| 0 <= i < 8 implies lanes(t[at], 0)[i] == leaf_state(leaf)[i] by {
        assert(0 <= t[at][i] < P);
        lemma_red_small(t[at][i]);
        if i > 0 {
            assert(red(t[at][i]) == 0);
        }
    }
    assert(lanes(t[at], 0) =~= leaf_state(leaf));
    assert forall|j: int|
        #![trigger t[at + j]]
        1 <= j < 32 * (4 + 1) && j % 32 != 0 implies lanes(t[at + j], 0) == red_seq(
        step_z(j % 32 - 1, lanes(t[at + j - 1], 0)),
    ) by {
        let i = 32 + j - 1;
        lemma_st_row(t, nq, pv, base, i);
        let e = row_env(t, st_cols(nq), pv, base + i);
        assert(base + i == at + j - 1 && base + i + 1 == at + j);
        assert((base + i) % 32 == j % 32 - 1 && i % 32 == j % 32 - 1);
        lemma_steps_follow(t, e, base + i, 13);
    }
    assert forall|k: int|
        #![trigger t[at + 32 * k]]
        1 <= k <= 4 implies vanish(link_polys(t[at + 32 * k - 1], t[at + 32 * k], 8, 12)) && (t[at
        + 32 * k][12] == 0 || t[at + 32 * k][12] == 1) by {
        let i = 32 + 32 * k - 1;
        lemma_st_row(t, nq, pv, base, i);
        assert(i % 32 == 31);
        lemma_st_row(t, nq, pv, base, i + 1);
        assert(base + i == at + 32 * k - 1 && base + i + 1 == at + 32 * k);
        assert(base + (i + 1) == at + 32 * k);
        crate::prime::law_bits(t[at + 32 * k][12]);
        assert(0 <= t[at + 32 * k][12] < P);
        lemma_red_small(t[at + 32 * k][12]);
    }
}

/// Whatever trace meets the constraints, in every tile the reduced opening of the head folds to the
/// public evaluation, and the digest of the trace value that the opening uses folds to the public
/// digest along the path of the tile.
pub proof fn law_super_tile_sound(t: Seq<Seq<int>>, nq: int, pv: Seq<int>, q: int)
    requires
        0 <= q < nq,
        t.len() == 256 * nq,
        canonical_cells(t, 68),
        satisfied(|env: Env| st_polys(env), t, st_cols(nq), pv),
    ensures
        econg(pair(pv, 0), fold_along(head_opening(t[256 * q], 4), t, 256 * q, 6)),
        forall|k: int|
            0 <= k < 4 ==> cong(
                #[trigger] pv[2 + k],
                root_of(
                    leaf_digest(seq![t[256 * q][35]]),
                    path_at(t, 256 * q + 32, 4),
                )[k],
            ),
{
    reveal(st_demand);
    let base = 256 * q;
    lemma_st_rows(t, nq, pv, q);
    lemma_st_arith(t, nq, pv, base);
    let v = t[base][35];
    assert(0 <= t[base][35] < P && 0 <= t[base + 32][67] < P);
    lemma_red_small(v);
    lemma_red_small(t[base + 32][67]);
    assert(base % 32 == 0);
    lemma_st_path(t, nq, pv, base, v);
    let at = base + 32;
    lemma_path_rows(t, at, seq![v], 4, 4);
    assert(at + 32 * 4 + 31 == base + 191);
    lemma_st_row(t, nq, pv, base, 191);
    let e = row_env(t, st_cols(nq), pv, base + 191);
    assert forall|k: int| 0 <= k < 4 implies cong(
        #[trigger] pv[2 + k],
        root_of(leaf_digest(seq![v]), path_at(t, at, 4))[k],
    ) by {
        assert(take4(lanes(t[base + 191], 0))[k] == t[base + 191][0 + k]);
        assert(e.pis[2 + k] == pv[2 + k]);
    }
}

/// Whether a query is accepted: its chain starts from its reduced opening and ends in the given
/// evaluation, its opened value is the one its first term uses, and folds to the given digest.
pub open spec fn tile_accepted(q: TileQuery, pv: Seq<int>) -> bool {
    &&& econg(
        q.query.ro@,
        opening_of(q.query.terms@, point_z(q.query.index as int, 10), q.query.alpha@),
    )
    &&& econg(pair(pv, 0), running(q.query.ro@, q.query.rounds@, 6))
    &&& cong(q.v as int, q.query.terms@[0].px as int)
    &&& forall|k: int|
        0 <= k < 4 ==> cong(
            #[trigger] pv[2 + k],
            root_of(leaf_digest(seq![q.v as int]), path_z(q.path@))[k],
        )
}

/// A fold row of a chain, and the row behind it.
pub proof fn lemma_bare_step(ro: (int, int), rounds: Seq<FoldRound>, r: int, c: Seq<int>, n: Seq<int>)
    requires
        0 <= r < rounds.len(),
        rounds_ok(rounds),
        forall|i: int| 0 <= i < 9 ==> #[trigger] c[i] == bare_chain_cells(ro, rounds, r)[i],
        pair(n, 0) == running(ro, rounds, (r + 1) as nat),
    ensures
        vanish(fold_polys(c, n)),
{
    let e = running(ro, rounds, r as nat);
    let rd = rounds[r];
    assert(red(2 * rd.s) != 0);
    let i = law_inverse_exists(2 * rd.s);
    lemma_finv(2 * rd.s, i);
    assert(pair(c, 0) == e && pair(c, 2) == rd.sib@ && pair(c, 4) == rd.beta@ && c[7] == rd.s && c[8]
        == i);
    assert(pair(n, 0) == fold_one(e, rd));
    assert(pair(n, 0) == fold_group(e, rd.sib@, rd.beta@, c[6], rd.s as int));
    lemma_fold_complete(c, n);
}

/// The cells of an arithmetic row that holds as many terms as it has room for.
pub proof fn lemma_arith_row(q: Query, n: int, r: int)
    requires
        q.terms.len() == n,
        0 <= r < 32,
    ensures
        arith_row(q, n, r).len() == 31 + 9 * n,
        r <= 6 ==> pair(arith_row(q, n, r), 0) == running(q.ro@, q.rounds@, r as nat),
        r <= 6 ==> forall|i: int|
            0 <= i < 9 ==> #[trigger] arith_row(q, n, r)[i] == bare_chain_cells(
                q.ro@,
                q.rounds@,
                r,
            )[i],
        r == 0 ==> head_at(arith_row(q, n, r), q, 9),
        r == 0 && n > 0 ==> arith_row(q, n, r)[35] == q.terms@[0].px,
{
    let row = arith_row(q, n, r);
    let x = point_z(q.index as int, 10);
    lemma_terms_len(q.terms@, x, q.alpha@, q.terms@.len());
    let h = head_cells(q, 10);
    assert(h.len() == 22 + 9 * n);
    if r <= 6 {
        let c = bare_chain_cells(q.ro@, q.rounds@, r);
        assert(c.len() == 9);
        assert(row[0] == c[0] && row[1] == c[1]);
        if r == 0 {
            assert forall|i: int| 0 <= i < h.len() implies #[trigger] row[9 + i] == h[i] by {}
            if n > 0 {
                lemma_terms_at(q.terms@, x, q.alpha@, n as nat, 0, 4);
                let i: int = 26;
                assert(row[9 + i] == h[i]);
            }
        }
    }
}

/// What is left to demand of a query at row `j` of its tile.
#[verifier::opaque]
pub open spec fn tile_left(q: TileQuery, pv: Seq<int>, j: int) -> bool {
    &&& j == 0 ==> econg(
        q.query.ro@,
        opening_of(q.query.terms@, point_z(q.query.index as int, 10), q.query.alpha@),
    ) && cong(q.v as int, q.query.terms@[0].px as int)
    &&& j == 6 ==> econg(pair(pv, 0), running(q.query.ro@, q.query.rounds@, 6))
    &&& j == 191 ==> forall|k: int|
        0 <= k < 4 ==> cong(
            #[trigger] pv[2 + k],
            root_of(leaf_digest(seq![q.v as int]), path_z(q.path@))[k],
        )
}

/// Every query has as many terms and rounds as a tile reads.
pub open spec fn tiles_full(qs: Seq<TileQuery>) -> bool {
    forall|i: int|
        #![trigger qs[i]]
        0 <= i < qs.len() ==> qs[i].query.terms.len() == 4 && qs[i].query.rounds.len() >= 6
}

proof fn lemma_st_arith_row(q: TileQuery, env: Env, j: int, last: bool)
    requires
        query_ok(q.query, 10),
        q.query.terms.len() == 4,
        q.query.rounds.len() >= 6,
        0 <= j < 32,
        env.cur == st_tile_row(q, j),
        env.nxt == st_tile_row(q, j + 1),
        path_ok(path_z(q.path@)),
        q.path.len() == 4,
        !last,
    ensures
        st_demand(env, j, last) <==> tile_left(q, env.pis, j),
{
    reveal(st_tile_row);
    reveal(tile_left);
    reveal(st_demand);
    let (c, n) = (env.cur, env.nxt);
    let a = arith_row(q.query, 4, j);
    lemma_arith_row(q.query, 4, j);
    assert(c.len() == 68 && c[67] == q.v);
    assert forall|i: int| 0 <= i < 67 implies #[trigger] c[i] == a[i] by {}
    assert(pair(c, 0) == pair(a, 0));
    if j < 31 {
        let b = arith_row(q.query, 4, j + 1);
        lemma_arith_row(q.query, 4, j + 1);
        assert(n[67] == q.v);
        assert forall|i: int| 0 <= i < 67 implies #[trigger] n[i] == b[i] by {}
        assert(pair(n, 0) == pair(b, 0));
        if j < 6 {
            lemma_bare_step(q.query.ro@, q.query.rounds@, j, c, n);
        }
    } else {
        lemma_mt_row_cells(seq![q.v as int], path_z(q.path@), 7, 0);
        assert(n[67] == q.v);
    }
    if j == 0 {
        lemma_tile_head(c, q.query);
        assert(running(q.query.ro@, q.query.rounds@, 0) == q.query.ro@);
    }
}

proof fn lemma_st_merkle_row(q: TileQuery, env: Env, j: int, last: bool)
    requires
        path_ok(path_z(q.path@)),
        q.path.len() == 4,
        32 <= j < 256,
        env.cur == st_tile_row(q, j),
        j < 255 ==> env.nxt == st_tile_row(q, j + 1),
        round_row(env.per, j % 32),
    ensures
        st_demand(env, j, last) <==> tile_left(q, env.pis, j),
{
    reveal(st_tile_row);
    reveal(tile_left);
    reveal(st_demand);
    let (c, n) = (env.cur, env.nxt);
    let (leaf, path) = (seq![q.v as int], path_z(q.path@));
    let a = mt_row(leaf, path, 7, j - 32);
    lemma_mt_row_cells(leaf, path, 7, j - 32);
    lemma_red_small(0);
    assert(c.len() == 68 && c[67] == q.v);
    assert forall|i: int| 0 <= i < 13 implies #[trigger] c[i] == a[i] by {}
    assert(lanes(c, 0) =~= lanes(a, 0));
    assert((j - 32) % 32 == j % 32);
    if j < 255 {
        let b = mt_row(leaf, path, 7, j - 31);
        lemma_mt_row_cells(leaf, path, 7, j - 31);
        assert(n[67] == q.v);
        assert forall|i: int| 0 <= i < 13 implies #[trigger] n[i] == b[i] by {}
        lemma_mt_step(leaf, path, 7, j - 32, c, n, env.per);
    } else {
        lemma_round_idle(lanes(c, 0), lanes(n, 0), env.per);
    }
    if j == 32 {
        assert forall|i: int| 0 <= i < 8 implies #[trigger] c[i] == leaf_state(leaf)[i] by {
            assert(lanes(c, 0)[i] == c[0 + i]);
        }
    }
    if j == 191 {
        assert forall|k: int| 0 <= k < 4 implies #[trigger] c[k] == root_of(
            leaf_digest(leaf),
            path,
        )[k] by {
            assert(take4(lanes(c, 0))[k] == c[0 + k]);
        }
    }
}

proof fn lemma_st_complete_row(qs: Seq<TileQuery>, pv: Seq<int>, r: int)
    requires
        tiles_ok(qs),
        tiles_full(qs),
        0 <= r < 256 * qs.len(),
    ensures
        holds(
            st_polys(row_env(st_trace(qs), st_cols(qs.len() as int), pv, r)),
            r,
            256 * qs.len() as int,
        ) <==> tile_left(qs[r / 256], pv, r % 256),
{
    let t = st_trace(qs);
    let nq = qs.len() as int;
    lemma_st_demand(t, nq, pv, r);
    let e = row_env(t, st_cols(nq), pv, r);
    let (k, j) = (r / 256, r % 256);
    let q = qs[k];
    assert(query_ok(q.query, 10) && q.query.rounds.len() >= 6);
    assert(j % 32 == r % 32);
    if j < 255 {
        assert((r + 1) / 256 == k && (r + 1) % 256 == j + 1);
        assert(e.nxt == st_tile_row(q, j + 1));
    }
    assert(path_ok(path_z(q.path@)));
    if j < 32 {
        lemma_st_arith_row(q, e, j, r == t.len() - 1);
    } else {
        lemma_st_merkle_row(q, e, j, r == t.len() - 1);
    }
}

/// The trace of a list of queries that fill their tiles meets the constraints exactly where every
/// query is accepted.
pub proof fn law_super_tile_complete(qs: Seq<TileQuery>, pv: Seq<int>)
    requires
        tiles_ok(qs),
        tiles_full(qs),
    ensures
        satisfied(|env: Env| st_polys(env), st_trace(qs), st_cols(qs.len() as int), pv)
            <==> forall|i: int| 0 <= i < qs.len() ==> tile_accepted(#[trigger] qs[i], pv),
{
    reveal(tile_left);
    let t = st_trace(qs);
    let pc = st_cols(qs.len() as int);
    let polys = |env: Env| st_polys(env);
    let h = t.len() as int;
    if satisfied(polys, t, pc, pv) {
        assert forall|i: int| 0 <= i < qs.len() implies tile_accepted(#[trigger] qs[i], pv) by {
            let (a, b, c) = (256 * i, 256 * i + 6, 256 * i + 191);
            assert(holds(polys(row_env(t, pc, pv, a)), a, h));
            assert(holds(polys(row_env(t, pc, pv, b)), b, h));
            assert(holds(polys(row_env(t, pc, pv, c)), c, h));
            lemma_st_complete_row(qs, pv, a);
            lemma_st_complete_row(qs, pv, b);
            lemma_st_complete_row(qs, pv, c);
            assert(a / 256 == i && a % 256 == 0 && b / 256 == i && b % 256 == 6 && c / 256 == i && c
                % 256 == 191);
        }
    }
    if forall|i: int| 0 <= i < qs.len() ==> tile_accepted(#[trigger] qs[i], pv) {
        assert forall|r: int|
            #![trigger row_env(t, pc, pv, r)]
            0 <= r < h implies holds(polys(row_env(t, pc, pv, r)), r, h) by {
            assert(tile_accepted(qs[r / 256], pv));
            lemma_st_complete_row(qs, pv, r);
        }
    }
}

} // verus!
