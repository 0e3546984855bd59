//! Periodic columns and power-of-two heights.
use vstd::prelude::*;

verus! {

/// The least power of two that is not less than `n`.
pub open spec fn np2(n: int) -> int
    decreases n,
{
    if n <= 1 {
        1
    } else {
        2 * np2((n + 1) / 2)
    }
}

/// Whether `n` is a power of two.
pub open spec fn is_pow2(n: int) -> bool
    decreases n,
{
    n == 1 || (n >= 2 && n % 2 == 0 && is_pow2(n / 2))
}

/// `np2` is a power of two, reaches its argument, and half of it does not.
pub proof fn lemma_np2(n: int)
    ensures
        np2(n) >= n,
        np2(n) >= 1,
        is_pow2(np2(n)),
        n > 1 ==> np2(n) < 2 * n,
    decreases n,
{
    if n > 1 {
        lemma_np2((n + 1) / 2);
        assert(np2(n) / 2 == np2((n + 1) / 2));
    }
}

/// A power of two is its own `np2`.
pub proof fn lemma_np2_pow2(n: int)
    requires
        is_pow2(n),
    ensures
        np2(n) == n,
    decreases n,
{
    if n >= 2 {
        lemma_np2_pow2(n / 2);
        assert((n + 1) / 2 == n / 2);
    }
}

pub proof fn lemma_np2_mono(a: int, b: int)
    requires
        a <= b,
    ensures
        np2(a) <= np2(b),
    decreases b,
{
    if b > 1 {
        if a > 1 {
            lemma_np2_mono((a + 1) / 2, (b + 1) / 2);
        } else {
            lemma_np2(b);
        }
    }
}

/// The least power of two that is not less than `n`.
pub fn next_power_of_two(n: usize) -> (r: usize)
    requires
        np2(n as int) <= usize::MAX,
    ensures
        r == np2(n as int),
    decreases n,
{
    if n <= 1 {
        1
    } else {
        let m: usize = n / 2 + n % 2;
        assert(m == (n as int + 1) / 2);
        proof {
            lemma_np2(m as int);
        }
        2 * next_power_of_two(m)
    }
}

/// Whether `n` is a power of two.
pub fn is_power_of_two(n: usize) -> (r: bool)
    ensures
        r == is_pow2(n as int),
    decreases n,
{
    if n < 2 {
        n == 1
    } else if n % 2 == 0 {
        is_power_of_two(n / 2)
    } else {
        false
    }
}

/// One on row `row` of each of `count` tiles of `period` rows from `base` on.
pub open spec fn hot_z(r: int, base: int, period: int, count: int, row: int) -> int {
    let d = r - base - row;
    if d >= 0 && d % period == 0 && d / period < count {
        1
    } else {
        0
    }
}

pub fn hot_col(h: usize, base: usize, period: usize, count: usize, row: usize) -> (c: Vec<u64>)
    requires
        period > 0,
    ensures
        c.len() == h,
        forall|r: int|
            0 <= r < h ==> #[trigger] c@[r] == hot_z(
                r,
                base as int,
                period as int,
                count as int,
                row as int,
            ),
{
    let mut c: Vec<u64> = Vec::new();
    for r in 0..h
        invariant
            period > 0,
            c.len() == r,
            forall|i: int|
                0 <= i < r ==> #[trigger] c@[i] == hot_z(
                    i,
                    base as int,
                    period as int,
                    count as int,
                    row as int,
                ),
    {
        let on: bool = r >= base && r - base >= row && (r - base - row) % period == 0 && (r - base
            - row) / period < count;
        c.push(if on { 1 } else { 0 });
    }
    c
}

/// One on the rows from `lo` to before `hi`.
pub open spec fn range_z(r: int, lo: int, hi: int) -> int {
    if lo <= r < hi {
        1
    } else {
        0
    }
}

pub fn range_col(h: usize, lo: usize, hi: usize) -> (c: Vec<u64>)
    ensures
        c.len() == h,
        forall|r: int| 0 <= r < h ==> #[trigger] c@[r] == range_z(r, lo as int, hi as int),
{
    let mut c: Vec<u64> = Vec::new();
    for r in 0..h
        invariant
            c.len() == r,
            forall|i: int| 0 <= i < r ==> #[trigger] c@[i] == range_z(i, lo as int, hi as int),
    {
        c.push(if lo <= r && r < hi { 1 } else { 0 });
    }
    c
}

/// One on the rows from `from` on of each of `count` tiles of `period` rows.
pub open spec fn tail_z(r: int, base: int, period: int, count: int, from: int) -> int {
    let d = r - base;
    if d >= 0 && d / period < count && d % period >= from {
        1
    } else {
        0
    }
}

pub fn tail_col(h: usize, base: usize, period: usize, count: usize, from: usize) -> (c: Vec<u64>)
    requires
        period > 0,
    ensures
        c.len() == h,
        forall|r: int|
            0 <= r < h ==> #[trigger] c@[r] == tail_z(
                r,
                base as int,
                period as int,
                count as int,
                from as int,
            ),
{
    let mut c: Vec<u64> = Vec::new();
    for r in 0..h
        invariant
            period > 0,
            c.len() == r,
            forall|i: int|
                0 <= i < r ==> #[trigger] c@[i] == tail_z(
                    i,
                    base as int,
                    period as int,
                    count as int,
                    from as int,
                ),
    {
        let on: bool = r >= base && (r - base) / period < count && (r - base) % period >= from;
        c.push(if on { 1 } else { 0 });
    }
    c
}

/// One on the last row of each block.
pub open spec fn last_z(r: int) -> int {
    if r % 32 == 31 {
        1
    } else {
        0
    }
}

pub fn last_col(h: usize) -> (c: Vec<u64>)
    ensures
        c.len() == h,
        forall|r: int| 0 <= r < h ==> #[trigger] c@[r] == last_z(r),
{
    let mut c: Vec<u64> = Vec::new();
    for r in 0..h
        invariant
            c.len() == r,
            forall|i: int| 0 <= i < r ==> #[trigger] c@[i] == last_z(i),
    {
        c.push(if r % 32 == 31 { 1 } else { 0 });
    }
    c
}

/// The count of block `b`, zero beyond the last block.
pub open spec fn count_of(counts: Seq<u8>, b: int) -> int {
    if 0 <= b < counts.len() {
        counts[b] as int
    } else {
        0
    }
}

/// The count of the block `shift` blocks after that of row `r`, on the rows before `until`.
pub open spec fn count_z(counts: Seq<u8>, r: int, shift: int, until: int) -> int {
    if r < until {
        count_of(counts, r / 32 + shift)
    } else {
        0
    }
}

pub fn count_col(h: usize, counts: &Vec<u8>, shift: usize, until: usize) -> (c: Vec<u64>)
    requires
        shift <= 1,
    ensures
        c.len() == h,
        forall|r: int|
            0 <= r < h ==> #[trigger] c@[r] == count_z(counts@, r, shift as int, until as int),
{
    let mut c: Vec<u64> = Vec::new();
    for r in 0..h
        invariant
            shift <= 1,
            c.len() == r,
            forall|i: int|
                0 <= i < r ==> #[trigger] c@[i] == count_z(counts@, i, shift as int, until as int),
    {
        let b: usize = r / 32 + shift;
        c.push(
            if r < until && b < counts.len() {
                counts[b] as u64
            } else {
                0
            },
        );
    }
    c
}

/// Whether the block after that of row `r` squeezes, on the rows before `until`.
pub open spec fn squeeze_z(counts: Seq<u8>, r: int, until: int) -> int {
    if r < until && count_of(counts, r / 32 + 1) == 0 {
        1
    } else {
        0
    }
}

pub fn squeeze_col(h: usize, counts: &Vec<u8>, until: usize) -> (c: Vec<u64>)
    ensures
        c.len() == h,
        forall|r: int| 0 <= r < h ==> #[trigger] c@[r] == squeeze_z(counts@, r, until as int),
{
    let mut c: Vec<u64> = Vec::new();
    for r in 0..h
        invariant
            c.len() == r,
            forall|i: int| 0 <= i < r ==> #[trigger] c@[i] == squeeze_z(counts@, i, until as int),
    {
        let b: usize = r / 32 + 1;
        let on: bool = r < until && (b >= counts.len() || counts[b] == 0);
        c.push(if on { 1 } else { 0 });
    }
    c
}

} // verus!
