//! Laws on sizes and places: powers of two, the blocks of a layout, and the blocks that are spilled.
use crate::cols::{count_z, hot_z, is_pow2, lemma_np2, np2, range_z, squeeze_z, tail_z};
use crate::monolith::geometry::{
    row_ranges_z, CommitLayout, HidingCommitLayout,
};
use crate::spill_alloc::{
    allocated, decimal, path_z, released, Header, Placement, Release, SpillAlloc, DIR_MAX, MAGIC_MMAP,
    MAGIC_SYS, PAGE, THRESHOLD,
};
use vstd::arithmetic::power2::{lemma2_to64, lemma_pow2_pos, lemma_pow2_unfold, pow2};
use vstd::prelude::*;

verus! {

/// Every power of two counts as one.
pub proof fn law_powers_counted(k: nat)
    ensures
        is_pow2(pow2(k) as int),
    decreases k,
{
    lemma2_to64();
    if k > 0 {
        law_powers_counted((k - 1) as nat);
        lemma_pow2_unfold(k);
        lemma_pow2_pos((k - 1) as nat);
        assert(pow2(k) as int / 2 == pow2((k - 1) as nat));
    }
}

/// Whatever counts as a power of two is one.
pub proof fn law_only_powers(n: int) -> (k: nat)
    requires
        is_pow2(n),
    ensures
        n == pow2(k),
    decreases n,
{
    lemma2_to64();
    if n == 1 {
        0
    } else {
        let j = law_only_powers(n / 2);
        lemma_pow2_unfold(j + 1);
        j + 1
    }
}

/// The next power of two is one, reaches the number, and no smaller one does.
pub proof fn law_next_power(n: int, k: nat)
    requires
        pow2(k) >= n,
    ensures
        is_pow2(np2(n)),
        n <= np2(n),
        np2(n) <= pow2(k),
    decreases k,
{
    lemma_np2(n);
    lemma2_to64();
    lemma_pow2_pos(k);
    if n > 1 {
        assert(k > 0);
        lemma_pow2_unfold(k);
        assert(pow2((k - 1) as nat) >= (n + 1) / 2);
        law_next_power((n + 1) / 2, (k - 1) as nat);
    }
}

/// The rounds of a layout: each has one block for its leaf and one for every level above the cap.
pub proof fn law_round_blocks(
    l: CommitLayout,
    log_global: int,
    cap: int,
    log_blowup: int,
    leaf_blocks: int,
    quot_leaf_blocks: int,
    r: int,
)
    requires
        l.is_layout(log_global, cap, log_blowup, leaf_blocks, quot_leaf_blocks),
        0 <= r < l.cm_rounds,
    ensures
        l.cm_rounds == log_global - log_blowup,
        l.input_depth == log_global - cap,
        log_global - r - 1 > cap ==> l.term@[r] - l.leaf@[r] == log_global - r - 1 - cap,
        log_global - r - 1 <= cap ==> l.term@[r] == l.leaf@[r],
{
    let a = l.leaf@[r];
    let b = l.term@[r];
}

/// The parts of a hiding layout fill its blocks without a gap: the random path, the input path, the
/// quotient path, and the rounds, each with two blocks for its leaf and one for every level above the
/// cap.
pub proof fn law_hiding_blocks(
    l: HidingCommitLayout,
    w_inner: int,
    nqc: int,
    log_global: int,
    cap: int,
    log_blowup: int,
    r: int,
)
    requires
        l.is_layout(w_inner, nqc, log_global, cap, log_blowup),
        0 <= r < log_global - log_blowup,
    ensures
        l.leaf.len() == log_global - log_blowup,
        l.term.len() == log_global - log_blowup,
        l.n_terms == 6 + 2 * (w_inner + 4) + 6 * nqc,
        l.m_random_term == 3 + (log_global - cap),
        l.m_input_term == l.m_random_term + (w_inner + 8 + 3) / 4 + (log_global - cap),
        l.m_quot_term == l.m_input_term + (10 * nqc + 3) / 4 + (log_global - cap),
        r == 0 ==> l.leaf@[r] == l.m_quot_term + 1,
        r > 0 ==> l.leaf@[r] == l.term@[r - 1] + 1,
        log_global - r - 1 > cap ==> l.term@[r] - l.leaf@[r] == 1 + log_global - r - 1 - cap,
        log_global - r - 1 <= cap ==> l.term@[r] == l.leaf@[r] + 1,
        r == log_global - log_blowup - 1 ==> l.m_nblocks == l.term@[r] + 1,
{
    let a = l.leaf@[r];
    let b = l.term@[r];
    if r > 0 {
        let c = l.term@[r - 1];
    }
}

/// The chunks of a trace are its transcript, every query in turn with all its rows, and what is left.
pub proof fn law_query_ranges(tr: int, n: int, period: int, height: int, width: int, q: int)
    requires
        0 < tr,
        0 <= q < n,
    ensures
        ({
            let v = row_ranges_z(tr, n, period, height, width);
            &&& v[0] == (-1int, 0int, tr)
            &&& v[1 + q] == (q, tr + q * period, period)
            &&& tr + n * period < height ==> v.len() == n + 2
            &&& tr + n * period >= height ==> v.len() == n + 1
        }),
{
}

/// A column that is one at one row of every period.
pub proof fn law_hot_column(base: int, period: int, count: int, row: int, q: int, r: int)
    requires
        period > 0,
        0 <= row < period,
        0 <= q,
        0 <= r < period,
    ensures
        hot_z(base + q * period + r, base, period, count, row) == (if r == row && q < count {
            1int
        } else {
            0
        }),
{
    let d = q * period + r - row;
    if r >= row {
        vstd::arithmetic::div_mod::lemma_fundamental_div_mod_converse(d, period, q, r - row);
    } else if q > 0 {
        assert(d == (q - 1) * period + (period + r - row)) by (nonlinear_arith)
            requires
                d == q * period + r - row,
        ;
        vstd::arithmetic::div_mod::lemma_fundamental_div_mod_converse(
            d,
            period,
            q - 1,
            period + r - row,
        );
    } else {
        assert(q * period == 0) by (nonlinear_arith)
            requires
                q == 0,
        ;
    }
}

/// A column that is one from a row of every period on.
pub proof fn law_tail_column(base: int, period: int, count: int, from: int, q: int, r: int)
    requires
        period > 0,
        0 <= q,
        0 <= r < period,
    ensures
        tail_z(base + q * period + r, base, period, count, from) == (if q < count && r >= from {
            1int
        } else {
            0
        }),
{
    let d = q * period + r;
    vstd::arithmetic::div_mod::lemma_fundamental_div_mod_converse(d, period, q, r);
    assert(0 <= q * period) by (nonlinear_arith)
        requires
            q >= 0,
            period > 0,
    ;
}

/// The columns of a schedule: every row of a block has the count of a block, and a squeeze where the next
/// block takes nothing in.
pub proof fn law_schedule_columns(counts: Seq<u8>, b: int, r: int, shift: int, until: int)
    requires
        0 <= b,
        0 <= r < 32,
        0 <= shift,
        32 * b + r < until,
    ensures
        b + shift < counts.len() ==> count_z(counts, 32 * b + r, shift, until) == counts[b + shift],
        b + shift >= counts.len() ==> count_z(counts, 32 * b + r, shift, until) == 0,
        squeeze_z(counts, 32 * b + r, until) == (if b + 1 >= counts.len() || counts[b + 1] == 0 {
            1int
        } else {
            0
        }),
        range_z(r, 0, 32) == 1,
{
}

/// A number in decimal is its tenth in decimal with its last digit behind it.
pub proof fn law_decimal_bytes(n: nat, d: nat)
    requires
        d < 10,
    ensures
        decimal(d) == seq![(48 + d) as u8],
        n > 0 ==> decimal(10 * n + d) == decimal(n).push((48 + d) as u8),
{
    assert((10 * n + d) / 10 == n && (10 * n + d) % 10 == d) by (nonlinear_arith)
        requires
            d < 10,
    ;
}

/// The name of a spill file: the directory, the process and the number, each in full where the directory
/// is not too long.
pub proof fn law_spill_name(dir: Seq<u8>, pid: nat, number: nat)
    ensures
        dir.len() <= DIR_MAX ==> path_z(dir, pid, number) == dir + seq![
            47u8,
            108,
            97,
            116,
            45,
            115,
            112,
            105,
            108,
            108,
            45,
        ] + decimal(pid) + seq![45u8] + decimal(number) + seq![46u8, 116, 109, 112, 0],
        dir.len() > DIR_MAX ==> path_z(dir, pid, number) == path_z(
            dir.take(DIR_MAX as int),
            pid,
            number,
        ),
        path_z(dir, pid, number).last() == 0,
{
    if dir.len() == DIR_MAX {
        assert(dir.take(DIR_MAX as int) =~= dir);
    }
    if dir.len() > DIR_MAX {
        assert(dir.take(DIR_MAX as int).take(DIR_MAX as int) =~= dir.take(DIR_MAX as int));
    }
}

/// Where a block comes from: below the threshold, or aligned beyond a page, from the system allocator
/// with nothing changed; a large one from a file where the allocator is armed and the mapping succeeds,
/// which is then counted; and otherwise from the system allocator with a header.
pub proof fn law_placement(a: SpillAlloc, size: int, align: int, mapped: Option<i64>, total: int)
    requires
        0 <= size,
        a.count < u64::MAX,
        total == PAGE * (1 + (size + PAGE - 1) / (PAGE as int)),
        a.bytes + total <= u64::MAX,
    ensures
        ({
            let (b, p) = allocated(a, size, align, mapped);
            let big = size >= THRESHOLD && align <= PAGE;
            &&& !big ==> b == a && p is Direct
            &&& big && a.armed > 0 && mapped is Some ==> {
                &&& p == (Placement::Mapped {
                    header: Header { magic: MAGIC_MMAP, fd: mapped->0, total: total as u64 },
                })
                &&& b.armed == a.armed
                &&& b.count == a.count + 1
                &&& b.bytes == a.bytes + total
                &&& b.peak >= a.peak && b.peak >= b.bytes && (b.peak == a.peak || b.peak == b.bytes)
                &&& a.counter < u64::MAX ==> b.counter == a.counter + 1
                &&& a.counter == u64::MAX ==> b.counter == 0
            }
            &&& big && (a.armed == 0 || mapped is None) ==> {
                &&& b.armed == a.armed && b.count == a.count && b.bytes == a.bytes
                &&& b.peak == a.peak
                &&& a.armed == 0 ==> b.counter == a.counter
                &&& total <= isize::MAX - (PAGE - 1) ==> p == (Placement::System {
                    header: Header { magic: MAGIC_SYS, fd: (-1) as i64, total: total as u64 },
                })
                &&& total > isize::MAX - (PAGE - 1) ==> p is Direct
            }
        }),
{
}

/// How a block is given back: one below the threshold, or without a mark, to the system allocator; a
/// mapped one by its file and length, which is then no longer counted; and one of the system allocator
/// by its length.
pub proof fn law_given_back(a: SpillAlloc, size: int, align: int, h: Header)
    requires
        h.magic == MAGIC_MMAP ==> a.count > 0 && a.bytes >= h.total,
    ensures
        ({
            let (b, r) = released(a, size, align, h);
            let big = size >= THRESHOLD && align <= PAGE;
            &&& !big ==> b == a && r is Direct
            &&& big && h.magic == MAGIC_MMAP ==> {
                &&& r == (Release::Unmap { fd: h.fd, total: h.total })
                &&& b.count == a.count - 1
                &&& b.bytes == a.bytes - h.total
                &&& b.peak == a.peak && b.counter == a.counter && b.armed == a.armed
            }
            &&& big && h.magic == MAGIC_SYS ==> b == a && r == (Release::System { total: h.total })
            &&& big && h.magic != MAGIC_MMAP && h.magic != MAGIC_SYS ==> b == a && r is Direct
        }),
{
}

} // verus!
