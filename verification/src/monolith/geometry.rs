//! The geometry of a super-tile, from the depth of the low-degree test, the height of the Merkle
//! caps and the widths of the leaves.
use crate::gadgets::RATE;
use vstd::prelude::*;

verus! {

/// The first block behind the arithmetic one.
pub const FIRST_LEAF: usize = 1;

/// Random codewords that a hiding commitment adds to each committed row.
pub const HIDING_NUM_CW: usize = 4;

/// Salt elements that a hiding commitment appends to each leaf.
pub const HIDING_SALT: usize = 4;

/// The width of the opened row of the random round.
pub const HIDING_RAND_PUB: usize = 2;

/// The most inner proofs that one outer proof folds.
pub const MAX_AGG_TILES: usize = 64;

/// The levels of the Merkle path of round `r` above the cap: round `r` folds to a codeword of
/// logarithmic height `log_global - (r + 1)`.
pub open spec fn depth_z(r: int, log_global: int, cap: int) -> int {
    let h = log_global - (r + 1);
    if h > cap {
        h - cap
    } else {
        0
    }
}

pub fn cm_depth_at(r: usize, log_global: usize, cap: usize) -> (d: usize)
    requires
        r < log_global,
    ensures
        d == depth_z(r as int, log_global as int, cap as int),
{
    let h: usize = log_global - (r + 1);
    if h > cap {
        h - cap
    } else {
        0
    }
}

/// The block at which round `r` starts, where round 0 starts at `from` and each leaf takes
/// `leaf_blocks` blocks.
pub open spec fn round_start(from: int, leaf_blocks: int, r: nat, log_global: int, cap: int) -> int
    decreases r,
{
    if r == 0 {
        from
    } else {
        let s = (r - 1) as nat;
        round_start(from, leaf_blocks, s, log_global, cap) + (leaf_blocks - 1) + depth_z(
            s as int,
            log_global,
            cap,
        ) + 1
    }
}

/// The last block of round `r`.
pub open spec fn round_end(from: int, leaf_blocks: int, r: nat, log_global: int, cap: int) -> int {
    round_start(from, leaf_blocks, r, log_global, cap) + (leaf_blocks - 1) + depth_z(
        r as int,
        log_global,
        cap,
    )
}

/// Rounds follow each other without a gap.
pub proof fn lemma_rounds(from: int, leaf_blocks: int, r: nat, log_global: int, cap: int)
    requires
        1 <= leaf_blocks,
        0 <= cap,
        0 <= log_global,
    ensures
        from + r <= round_start(from, leaf_blocks, r, log_global, cap),
        round_start(from, leaf_blocks, r, log_global, cap) <= round_end(
            from,
            leaf_blocks,
            r,
            log_global,
            cap,
        ),
        round_start(from, leaf_blocks, r + 1, log_global, cap) == round_end(
            from,
            leaf_blocks,
            r,
            log_global,
            cap,
        ) + 1,
        round_start(from, leaf_blocks, r, log_global, cap) <= from + r * (leaf_blocks + log_global),
    decreases r,
{
    if r > 0 {
        let s = (r - 1) as nat;
        lemma_rounds(from, leaf_blocks, s, log_global, cap);
        assert(r * (leaf_blocks + log_global) == s * (leaf_blocks + log_global) + (leaf_blocks
            + log_global)) by (nonlinear_arith)
            requires
                r == s + 1,
        ;
    }
}

/// The first and the last blocks of the rounds.
fn round_blocks(
    from: usize,
    leaf_blocks: usize,
    rounds: usize,
    log_global: usize,
    cap: usize,
) -> (r: (Vec<usize>, Vec<usize>))
    requires
        1 <= leaf_blocks,
        rounds <= log_global,
        from + (rounds + 1) * (leaf_blocks + log_global) <= usize::MAX,
    ensures
        r.0.len() == rounds,
        r.1.len() == rounds,
        forall|i: int|
            0 <= i < rounds ==> #[trigger] r.0@[i] == round_start(
                from as int,
                leaf_blocks as int,
                i as nat,
                log_global as int,
                cap as int,
            ),
        forall|i: int|
            0 <= i < rounds ==> #[trigger] r.1@[i] == round_end(
                from as int,
                leaf_blocks as int,
                i as nat,
                log_global as int,
                cap as int,
            ),
{
    let mut leaf: Vec<usize> = Vec::new();
    let mut term: Vec<usize> = Vec::new();
    let mut blk: usize = from;
    let ghost (f, l, g, c) = (from as int, leaf_blocks as int, log_global as int, cap as int);
    for i in 0..rounds
        invariant
            1 <= leaf_blocks,
            rounds <= log_global,
            from + (rounds + 1) * (leaf_blocks + log_global) <= usize::MAX,
            f == from,
            l == leaf_blocks,
            g == log_global,
            c == cap,
            blk == round_start(f, l, i as nat, g, c),
            leaf.len() == i,
            term.len() == i,
            forall|j: int| 0 <= j < i ==> #[trigger] leaf@[j] == round_start(f, l, j as nat, g, c),
            forall|j: int| 0 <= j < i ==> #[trigger] term@[j] == round_end(f, l, j as nat, g, c),
    {
        let d: usize = cm_depth_at(i, log_global, cap);
        proof {
            lemma_rounds(f, l, i as nat, g, c);
            lemma_rounds(f, l, (i + 1) as nat, g, c);
            assert((i + 1) * (l + g) <= (rounds + 1) * (l + g)) by (nonlinear_arith)
                requires
                    i < rounds,
                    l + g >= 0,
            ;
        }
        leaf.push(blk);
        let end: usize = blk + (leaf_blocks - 1) + d;
        term.push(end);
        blk = end + 1;
    }
    (leaf, term)
}

/// Where the parts of a super-tile stand: the number of rounds, the depth of the input paths, the
/// last blocks of the input and of the quotient path, the first and the last block of each round,
/// and the number of blocks.
#[derive(Debug)]
pub struct CommitLayout {
    pub cm_rounds: usize,
    pub input_depth: usize,
    pub m_input_term: usize,
    pub m_quot_term: usize,
    pub leaf: Vec<usize>,
    pub term: Vec<usize>,
    pub m_nblocks: usize,
}

/// The parameters of a layout give one: there is a round, and its blocks can be counted.
pub open spec fn layout_ok(log_global: int, cap: int, log_blowup: int, widest: int) -> bool {
    &&& log_blowup < log_global
    &&& cap <= log_global
    &&& 1 <= widest
    &&& (log_global + 4) * (widest + log_global + 2) <= usize::MAX
}

impl CommitLayout {
    /// The layout of two input rounds with the given leaf blocks, and the fold rounds behind them.
    pub open spec fn is_layout(
        self,
        log_global: int,
        cap: int,
        log_blowup: int,
        leaf_blocks: int,
        quot_leaf_blocks: int,
    ) -> bool {
        let from = self.m_quot_term + 1;
        &&& self.cm_rounds == log_global - log_blowup
        &&& self.input_depth == log_global - cap
        &&& self.m_input_term == leaf_blocks + (log_global - cap)
        &&& self.m_quot_term == self.m_input_term + quot_leaf_blocks + (log_global - cap)
        &&& self.leaf.len() == self.cm_rounds
        &&& self.term.len() == self.cm_rounds
        &&& forall|r: int|
            0 <= r < self.cm_rounds ==> #[trigger] self.leaf@[r] == round_start(
                from,
                1,
                r as nat,
                log_global,
                cap,
            )
        &&& forall|r: int|
            0 <= r < self.cm_rounds ==> #[trigger] self.term@[r] == round_end(
                from,
                1,
                r as nat,
                log_global,
                cap,
            )
        &&& self.m_nblocks == round_start(from, 1, self.cm_rounds as nat, log_global, cap)
    }
}

/// The layout of a super-tile.
pub fn commit_layout(
    log_global: usize,
    cap: usize,
    log_blowup: usize,
    leaf_blocks: usize,
    quot_leaf_blocks: usize,
) -> (r: CommitLayout)
    requires
        1 <= leaf_blocks,
        1 <= quot_leaf_blocks,
        layout_ok(
            log_global as int,
            cap as int,
            log_blowup as int,
            leaf_blocks + quot_leaf_blocks,
        ),
    ensures
        r.is_layout(
            log_global as int,
            cap as int,
            log_blowup as int,
            leaf_blocks as int,
            quot_leaf_blocks as int,
        ),
{
    let cm_rounds: usize = log_global - log_blowup;
    let input_depth: usize = log_global - cap;
    proof {
        let (g, w) = (log_global as int, leaf_blocks + quot_leaf_blocks);
        assert((g + 4) * (w + g + 2) >= 4 * (w + g + 2) + g * (1 + g)) by (nonlinear_arith)
            requires
                g >= 0,
                w >= 1,
        ;
        assert((g + 1) * (1 + g) == g * (1 + g) + 1 + g) by (nonlinear_arith);
        assert((cm_rounds + 1) * (1 + g) <= (g + 1) * (1 + g)) by (nonlinear_arith)
            requires
                cm_rounds <= g,
                g >= 0,
        ;
        assert(g * (1 + g) >= 0) by (nonlinear_arith)
            requires
                g >= 0,
        ;
    }
    let m_input_term: usize = FIRST_LEAF + (leaf_blocks - 1) + input_depth;
    let m_quot_leaf: usize = m_input_term + 1;
    let m_quot_term: usize = m_quot_leaf + (quot_leaf_blocks - 1) + input_depth;
    let (leaf, term) = round_blocks(m_quot_term + 1, 1, cm_rounds, log_global, cap);
    proof {
        let last = (cm_rounds - 1) as nat;
        let g = log_global as int;
        lemma_rounds(m_quot_term + 1, 1, last, g, cap as int);
        lemma_rounds(m_quot_term + 1, 1, last + 1, g, cap as int);
        assert((last + 1) * (1 + g) <= (cm_rounds + 1) * (1 + g)) by (nonlinear_arith)
            requires
                last + 1 == cm_rounds,
                g >= 0,
        ;
        assert(term@[cm_rounds - 1] == round_end(m_quot_term + 1, 1, last, g, cap as int));
    }
    let m_nblocks: usize = term[cm_rounds - 1] + 1;
    CommitLayout { cm_rounds, input_depth, m_input_term, m_quot_term, leaf, term, m_nblocks }
}

/// Where the parts of a hiding super-tile stand: three salted input rounds, salted fold rounds, the
/// number of terms, and the leaf blocks of the random, the trace and the quotient round.
#[derive(Debug)]
pub struct HidingCommitLayout {
    pub m_random_term: usize,
    pub m_input_term: usize,
    pub m_quot_term: usize,
    pub leaf: Vec<usize>,
    pub term: Vec<usize>,
    pub m_nblocks: usize,
    pub n_terms: usize,
    pub leaf_blocks: [usize; 3],
}

/// The blocks that hold `n` elements.
pub open spec fn blocks_of(n: int) -> int {
    (n + 3) / 4
}

fn blocks_for(n: usize) -> (r: usize)
    requires
        n + 3 <= usize::MAX,
    ensures
        r == blocks_of(n as int),
{
    (n + (RATE - 1)) / RATE
}

impl HidingCommitLayout {
    pub open spec fn is_layout(
        self,
        w_inner: int,
        nqc: int,
        log_global: int,
        cap: int,
        log_blowup: int,
    ) -> bool {
        let from = self.m_quot_term + 1;
        let rounds = log_global - log_blowup;
        let depth = log_global - cap;
        &&& self.leaf_blocks@ == seq![
            3usize,
            blocks_of(w_inner + 8) as usize,
            blocks_of(10 * nqc) as usize,
        ]
        &&& self.m_random_term == 3 + depth
        &&& self.m_input_term == self.m_random_term + blocks_of(w_inner + 8) + depth
        &&& self.m_quot_term == self.m_input_term + blocks_of(10 * nqc) + depth
        &&& self.leaf.len() == rounds
        &&& self.term.len() == rounds
        &&& forall|r: int|
            0 <= r < rounds ==> #[trigger] self.leaf@[r] == round_start(
                from,
                2,
                r as nat,
                log_global,
                cap,
            )
        &&& forall|r: int|
            0 <= r < rounds ==> #[trigger] self.term@[r] == round_end(
                from,
                2,
                r as nat,
                log_global,
                cap,
            )
        &&& self.m_nblocks == round_start(from, 2, rounds as nat, log_global, cap)
        &&& self.n_terms == 6 + 2 * (w_inner + 4) + 6 * nqc
    }
}

/// The layout of a hiding super-tile whose inner trace has `w_inner` columns and whose quotient has
/// `nqc` chunks.
pub fn hiding_commit_layout(
    w_inner: usize,
    nqc: usize,
    log_global: usize,
    cap: usize,
    log_blowup: usize,
) -> (r: HidingCommitLayout)
    requires
        1 <= nqc,
        layout_ok(
            log_global as int,
            cap as int,
            log_blowup as int,
            100 + 2 * w_inner + 10 * nqc,
        ),
    ensures
        r.is_layout(
            w_inner as int,
            nqc as int,
            log_global as int,
            cap as int,
            log_blowup as int,
        ),
{
    let cm_rounds: usize = log_global - log_blowup;
    let input_depth: usize = log_global - cap;
    proof {
        let (g, w) = (log_global as int, 100 + 2 * w_inner + 10 * nqc);
        assert((g + 4) * (w + g + 2) >= 4 * (w + g + 2) + g * (2 + g)) by (nonlinear_arith)
            requires
                g >= 0,
                w >= 1,
        ;
        assert((g + 1) * (2 + g) == g * (2 + g) + 2 + g) by (nonlinear_arith);
        assert((cm_rounds + 1) * (2 + g) <= (g + 1) * (2 + g)) by (nonlinear_arith)
            requires
                cm_rounds <= g,
                g >= 0,
        ;
        assert(g * (2 + g) >= 0) by (nonlinear_arith)
            requires
                g >= 0,
        ;
    }
    let random_merged: usize = HIDING_RAND_PUB + HIDING_NUM_CW;
    let trace_merged: usize = w_inner + HIDING_NUM_CW;
    let quot_merged: usize = 2 + HIDING_NUM_CW;
    let rlb: usize = blocks_for(random_merged + HIDING_SALT);
    let ilb: usize = blocks_for(trace_merged + HIDING_SALT);
    let qlb: usize = blocks_for(nqc * (quot_merged + HIDING_SALT));
    let m_random_term: usize = FIRST_LEAF + (rlb - 1) + input_depth;
    let m_input_term: usize = (m_random_term + 1) + (ilb - 1) + input_depth;
    let m_quot_term: usize = (m_input_term + 1) + (qlb - 1) + input_depth;
    let cm_leaf_blocks: usize = blocks_for(4 + HIDING_SALT);
    let (leaf, term) = round_blocks(m_quot_term + 1, cm_leaf_blocks, cm_rounds, log_global, cap);
    proof {
        let last = (cm_rounds - 1) as nat;
        let g = log_global as int;
        lemma_rounds(m_quot_term + 1, 2, last, g, cap as int);
        lemma_rounds(m_quot_term + 1, 2, last + 1, g, cap as int);
        assert((last + 1) * (2 + g) <= (cm_rounds + 1) * (2 + g)) by (nonlinear_arith)
            requires
                last + 1 == cm_rounds,
                g >= 0,
        ;
        assert(term@[cm_rounds - 1] == round_end(m_quot_term + 1, 2, last, g, cap as int));
    }
    let m_nblocks: usize = term[cm_rounds - 1] + 1;
    let n_terms: usize = random_merged + 2 * trace_merged + nqc * quot_merged;
    let leaf_blocks: [usize; 3] = [rlb, ilb, qlb];
    assert(leaf_blocks@ =~= seq![
        3usize,
        blocks_of(w_inner + 8) as usize,
        blocks_of(10 * nqc) as usize,
    ]);
    HidingCommitLayout {
        m_random_term,
        m_input_term,
        m_quot_term,
        leaf,
        term,
        m_nblocks,
        n_terms,
        leaf_blocks,
    }
}

/// The parts of a layout fill its blocks without a gap: the input path starts at block 1, the
/// quotient path right behind it, the first round right behind that, each round right behind the
/// one before, and the last block ends the last round.
pub proof fn law_layout_contiguous(
    l: CommitLayout,
    log_global: int,
    cap: int,
    log_blowup: int,
    leaf_blocks: int,
    quot_leaf_blocks: int,
    r: int,
)
    requires
        0 <= cap,
        0 <= log_global,
        l.is_layout(log_global, cap, log_blowup, leaf_blocks, quot_leaf_blocks),
        0 <= r < l.cm_rounds,
    ensures
        l.leaf@[r] <= l.term@[r],
        r == 0 ==> l.leaf@[r] == l.m_quot_term + 1,
        r > 0 ==> l.leaf@[r] == l.term@[r - 1] + 1,
        r == l.cm_rounds - 1 ==> l.m_nblocks == l.term@[r] + 1,
        l.m_input_term == 1 + (leaf_blocks - 1) + l.input_depth,
        l.m_quot_term == l.m_input_term + 1 + (quot_leaf_blocks - 1) + l.input_depth,
{
    let from = l.m_quot_term + 1;
    lemma_rounds(from, 1, r as nat, log_global, cap);
    if r > 0 {
        lemma_rounds(from, 1, (r - 1) as nat, log_global, cap);
        assert(l.term@[r - 1] == round_end(from, 1, (r - 1) as nat, log_global, cap));
    }
}

// The rows of a trace in chunks.

#[derive(Clone, Copy, Debug, PartialEq, Eq, Structural)]
pub enum MonolithTracePart {
    Transcript,
    Query { q: usize },
    Padding,
}

/// A run of rows that can be filled on its own.
#[derive(Clone, Copy, Debug, PartialEq, Eq, Structural)]
pub struct MonolithTraceRowRange {
    pub kind: MonolithTracePart,
    pub start_row: usize,
    pub rows: usize,
    pub width: usize,
}

impl MonolithTraceRowRange {
    /// The cells of the run.
    pub fn felt_len(&self) -> (r: usize)
        requires
            self.rows * self.width <= usize::MAX,
        ensures
            r == self.rows * self.width,
    {
        self.rows * self.width
    }
}

/// The chunks of a trace of `height` rows with a transcript region of `tr` rows and `n` tiles of
/// `period` rows: the region, each tile, and what is left; none of them empty but the tiles of a
/// zero period.
pub open spec fn row_ranges_z(tr: int, n: int, period: int, height: int, width: int) -> Seq<
    (int, int, int),
> {
    (if tr > 0 {
        seq![(-1int, 0int, tr)]
    } else {
        seq![]
    }) + Seq::new(n as nat, |q: int| (q, tr + q * period, period)) + (if tr + n * period < height {
        seq![(-2int, tr + n * period, height - (tr + n * period))]
    } else {
        seq![]
    })
}

/// The kind of a chunk as a number: a query, or a negative number.
pub open spec fn kind_z(k: MonolithTracePart) -> int {
    match k {
        MonolithTracePart::Transcript => -1,
        MonolithTracePart::Query { q } => q as int,
        MonolithTracePart::Padding => -2,
    }
}

/// The chunks as numbers.
pub open spec fn ranges_z(v: Seq<MonolithTraceRowRange>) -> Seq<(int, int, int)> {
    Seq::new(v.len(), |i: int| (kind_z(v[i].kind), v[i].start_row as int, v[i].rows as int))
}

/// The row chunks of a trace that can be filled independently.
pub fn trace_row_ranges(
    tr: usize,
    n_queries: usize,
    period: usize,
    height: usize,
    width: usize,
) -> (r: Vec<MonolithTraceRowRange>)
    requires
        tr + n_queries * period <= height,
    ensures
        ranges_z(r@) == row_ranges_z(
            tr as int,
            n_queries as int,
            period as int,
            height as int,
            width as int,
        ),
        forall|i: int| 0 <= i < r.len() ==> (#[trigger] r@[i]).width == width,
{
    let mut ranges: Vec<MonolithTraceRowRange> = Vec::new();
    if tr > 0 {
        ranges.push(
            MonolithTraceRowRange {
                kind: MonolithTracePart::Transcript,
                start_row: 0,
                rows: tr,
                width,
            },
        );
    }
    let ghost first: Seq<(int, int, int)> = if tr > 0 {
        seq![(-1int, 0int, tr as int)]
    } else {
        seq![]
    };
    assert(ranges_z(ranges@) =~= first);
    for q in 0..n_queries
        invariant
            tr + n_queries * period <= height,
            forall|i: int| 0 <= i < ranges.len() ==> (#[trigger] ranges@[i]).width == width,
            ranges_z(ranges@) == first + Seq::new(
                q as nat,
                |q: int| (q, tr + q * period, period as int),
            ),
    {
        assert(q * period <= n_queries * period) by (nonlinear_arith)
            requires
                q < n_queries,
                period >= 0,
        ;
        let ghost before = ranges@;
        ranges.push(
            MonolithTraceRowRange {
                kind: MonolithTracePart::Query { q },
                start_row: tr + q * period,
                rows: period,
                width,
            },
        );
        proof {
            let want = first + Seq::new(
                (q + 1) as nat,
                |q: int| (q, tr + q * period, period as int),
            );
            assert(ranges_z(before).len() == first.len() + q);
            assert forall|i: int| 0 <= i < want.len() implies #[trigger] ranges_z(ranges@)[i]
                == want[i] by {
                if i < before.len() {
                    assert(ranges@[i] == before[i]);
                    assert(ranges_z(ranges@)[i] == ranges_z(before)[i]);
                } else {
                    assert(ranges@[i].start_row == tr + q * period);
                }
            }
            assert(ranges_z(ranges@) =~= want);
        }
    }
    let used: usize = tr + n_queries * period;
    let ghost before = ranges@;
    if used < height {
        ranges.push(
            MonolithTraceRowRange {
                kind: MonolithTracePart::Padding,
                start_row: used,
                rows: height - used,
                width,
            },
        );
    }
    proof {
        let want = row_ranges_z(
            tr as int,
            n_queries as int,
            period as int,
            height as int,
            width as int,
        );
        assert(ranges_z(before).len() == before.len());
        assert forall|i: int| 0 <= i < want.len() implies ranges_z(ranges@)[i] == want[i] by {
            if i < before.len() {
                assert(ranges_z(ranges@)[i] == ranges_z(before)[i]);
            }
        }
        assert(ranges_z(ranges@) =~= want);
    }
    ranges
}

/// The chunks cover the rows of the trace in order: the first starts at row 0, each starts where the
/// one before ends, and the last ends at the height.
pub proof fn law_ranges_cover(tr: int, n: int, period: int, height: int, width: int, i: int)
    requires
        0 <= tr,
        0 <= n,
        0 <= period,
        tr + n * period <= height,
        0 <= i < row_ranges_z(tr, n, period, height, width).len(),
    ensures
        ({
            let v = row_ranges_z(tr, n, period, height, width);
            &&& i == 0 ==> v[i].1 == 0
            &&& i > 0 ==> v[i].1 == v[i - 1].1 + v[i - 1].2
            &&& i == v.len() - 1 ==> v[i].1 + v[i].2 == height
        }),
{
    let v = row_ranges_z(tr, n, period, height, width);
    let off: int = if tr > 0 {
        1
    } else {
        0
    };
    let q = i - off;
    assert((q - 1) * period + period == q * period) by (nonlinear_arith);
    assert((q + 1) * period == q * period + period) by (nonlinear_arith);
    assert(0 * period == 0);
}

} // verus!
