//! The bookkeeping of an allocator that spills large blocks to mapped files: which blocks it spills,
//! the header that every large block carries, the name of the file behind it, and what is live.
use vstd::prelude::*;

verus! {

/// The granularity of mappings.
pub const PAGE: usize = 4096;

/// The size from which a block is a candidate for spilling.
pub const THRESHOLD: usize = 67108864;

/// The mark of a block that is mapped from a file.
pub const MAGIC_MMAP: u64 = 0x4C41545F53504C4D;

/// The mark of a large block of the system allocator.
pub const MAGIC_SYS: u64 = 0x4C41545F53504C53;

/// What stands before the payload of every large block: its mark, the file it is mapped from, and its
/// length with the header.
#[derive(Clone, Copy, Debug, PartialEq, Eq, Structural)]
pub struct Header {
    pub magic: u64,
    pub fd: i64,
    pub total: u64,
}

/// The words that a header is stored as.
pub fn write_hdr(h: &Header) -> (r: [u64; 3])
    ensures
        r@ == seq![h.magic, h.fd as u64, h.total],
{
    let r: [u64; 3] = [h.magic, h.fd as u64, h.total];
    assert(r@ =~= seq![h.magic, h.fd as u64, h.total]);
    r
}

/// The header that words hold.
pub fn read_hdr(w: &[u64; 3]) -> (r: Header)
    ensures
        r == (Header { magic: w@[0], fd: w@[1] as i64, total: w@[2] }),
{
    Header { magic: w[0], fd: w[1] as i64, total: w[2] }
}

/// A header that is read back is the one that was written.
pub proof fn law_header_roundtrip(h: Header)
    ensures
        ({
            let w = seq![h.magic, h.fd as u64, h.total];
            Header { magic: w[0], fd: w[1] as i64, total: w[2] } == h
        }),
{
    let fd = h.fd;
    assert((fd as u64) as i64 == fd) by (bit_vector);
}

/// Where a block comes from: the system allocator as it is, or a large block with a header, mapped or
/// not.
#[derive(Clone, Copy, Debug, PartialEq, Eq, Structural)]
pub enum Placement {
    Direct,
    Mapped { header: Header },
    System { header: Header },
}

/// How a block is given back.
#[derive(Clone, Copy, Debug, PartialEq, Eq, Structural)]
pub enum Release {
    Direct,
    Unmap { fd: i64, total: u64 },
    System { total: u64 },
}

/// Whether a block of this size and alignment is a candidate for spilling.
pub open spec fn large(size: int, align: int) -> bool {
    size >= THRESHOLD && align <= PAGE
}

/// The length of a large block: a page for the header, and the payload in whole pages.
pub open spec fn total_z(size: int) -> int {
    PAGE + ((size + PAGE - 1) / PAGE as int) * PAGE
}

/// The spilling allocator: how often it is armed, the files it has named, and the mapped blocks that are
/// live, with the most bytes that were.
#[derive(Debug)]
pub struct SpillAlloc {
    pub armed: usize,
    pub counter: u64,
    pub count: u64,
    pub bytes: u64,
    pub peak: u64,
}

/// The mapped bytes are covered by the peak.
pub open spec fn within_peak(a: SpillAlloc) -> bool {
    a.bytes <= a.peak
}

/// The allocator behind an allocation, and where the block comes from. `mapped` is the file that a
/// mapping of the block gave, where it is tried and does not fail.
pub open spec fn allocated(a: SpillAlloc, size: int, align: int, mapped: Option<i64>) -> (
    SpillAlloc,
    Placement,
) {
    let total = total_z(size);
    let live = a.bytes + total;
    if !large(size, align) {
        (a, Placement::Direct)
    } else if a.armed > 0 && mapped is Some {
        (
            SpillAlloc {
                counter: ((a.counter + 1) % 0x1_0000_0000_0000_0000) as u64,
                count: (a.count + 1) as u64,
                bytes: live as u64,
                peak: if a.peak < live {
                    live as u64
                } else {
                    a.peak
                },
                ..a
            },
            Placement::Mapped {
                header: Header { magic: MAGIC_MMAP, fd: mapped->0, total: total as u64 },
            },
        )
    } else {
        let b = if a.armed > 0 {
            SpillAlloc { counter: ((a.counter + 1) % 0x1_0000_0000_0000_0000) as u64, ..a }
        } else {
            a
        };
        if total > isize::MAX - (PAGE - 1) {
            (b, Placement::Direct)
        } else {
            (
                b,
                Placement::System {
                    header: Header { magic: MAGIC_SYS, fd: (-1) as i64, total: total as u64 },
                },
            )
        }
    }
}

/// The allocator behind the release of a block, and how it is given back.
pub open spec fn released(a: SpillAlloc, size: int, align: int, h: Header) -> (SpillAlloc, Release) {
    if !large(size, align) {
        (a, Release::Direct)
    } else if h.magic == MAGIC_MMAP {
        (
            SpillAlloc { count: (a.count - 1) as u64, bytes: (a.bytes - h.total) as u64, ..a },
            Release::Unmap { fd: h.fd, total: h.total },
        )
    } else if h.magic == MAGIC_SYS {
        (a, Release::System { total: h.total })
    } else {
        (a, Release::Direct)
    }
}

impl SpillAlloc {
    pub fn new() -> (r: Self)
        ensures
            r == (SpillAlloc { armed: 0, counter: 0, count: 0, bytes: 0, peak: 0 }),
    {
        SpillAlloc { armed: 0, counter: 0, count: 0, bytes: 0, peak: 0 }
    }

    /// Whether a mapping is to be tried for a block.
    pub fn tries_mapping(&self, size: usize, align: usize) -> (r: bool)
        ensures
            r == (large(size as int, align as int) && self.armed > 0),
    {
        size >= THRESHOLD && align <= PAGE && self.armed > 0
    }

    /// Accounts for an allocation.
    pub fn allocate(&mut self, size: usize, align: usize, mapped: Option<i64>) -> (r: Placement)
        requires
            size <= isize::MAX,
            old(self).count < u64::MAX,
            old(self).bytes + total_z(size as int) <= u64::MAX,
        ensures
            (*final(self), r) == allocated(*old(self), size as int, align as int, mapped),
    {
        if size < THRESHOLD || align > PAGE {
            return Placement::Direct;
        }
        let payload: usize = ((size + (PAGE - 1)) / PAGE) * PAGE;
        let total: usize = PAGE + payload;
        assert(total == total_z(size as int));
        if self.armed > 0 {
            self.counter = if self.counter == u64::MAX {
                0
            } else {
                self.counter + 1
            };
            match mapped {
                Some(fd) => {
                    self.count = self.count + 1;
                    self.bytes = self.bytes + total as u64;
                    if self.peak < self.bytes {
                        self.peak = self.bytes;
                    }
                    return Placement::Mapped {
                        header: Header { magic: MAGIC_MMAP, fd, total: total as u64 },
                    };
                },
                None => {},
            }
        }
        if total > isize::MAX as usize - (PAGE - 1) {
            return Placement::Direct;
        }
        Placement::System { header: Header { magic: MAGIC_SYS, fd: -1, total: total as u64 } }
    }

    /// Accounts for the release of a block.
    pub fn release(&mut self, size: usize, align: usize, h: &Header) -> (r: Release)
        requires
            h.magic == MAGIC_MMAP && large(size as int, align as int) ==> old(self).count > 0 && old(
                self,
            ).bytes >= h.total,
        ensures
            (*final(self), r) == released(*old(self), size as int, align as int, *h),
    {
        if size < THRESHOLD || align > PAGE {
            return Release::Direct;
        }
        if h.magic == MAGIC_MMAP {
            self.count = self.count - 1;
            self.bytes = self.bytes - h.total;
            Release::Unmap { fd: h.fd, total: h.total }
        } else if h.magic == MAGIC_SYS {
            Release::System { total: h.total }
        } else {
            Release::Direct
        }
    }
}

/// Whether a zeroed block must be cleared: one of the system allocator, while a fresh file reads as zero.
pub fn must_clear(p: &Placement) -> (r: bool)
    ensures
        r == (p is System),
{
    match p {
        Placement::System { .. } => true,
        _ => false,
    }
}

/// A scope in which the allocator spills.
#[derive(Debug)]
pub struct SpillScope {
    depth: usize,
}

impl SpillScope {
    /// The scopes that were open before this one.
    pub closed spec fn before(self) -> int {
        self.depth as int
    }

    /// Arms the allocator.
    pub fn arm(a: &mut SpillAlloc) -> (r: Self)
        requires
            old(a).armed < usize::MAX,
        ensures
            *final(a) == (SpillAlloc { armed: (old(a).armed + 1) as usize, ..*old(a) }),
            r.before() == old(a).armed,
    {
        let depth: usize = a.armed;
        a.armed = a.armed + 1;
        SpillScope { depth }
    }

    /// Closes the scope.
    pub fn disarm(self, a: &mut SpillAlloc)
        requires
            old(a).armed > 0,
        ensures
            *final(a) == (SpillAlloc { armed: (old(a).armed - 1) as usize, ..*old(a) }),
    {
        a.armed = a.armed - 1;
    }
}

/// Whether the allocator spills.
pub fn is_armed(a: &SpillAlloc) -> (r: bool)
    ensures
        r == (a.armed > 0),
{
    a.armed > 0
}

/// The live mapped blocks, and their bytes.
pub fn spill_stats(a: &SpillAlloc) -> (r: (u64, u64))
    ensures
        r == (a.count, a.bytes),
{
    (a.count, a.bytes)
}

/// The most bytes that were mapped at a time since the last reset.
pub fn spill_peak_bytes(a: &SpillAlloc) -> (r: u64)
    ensures
        r == a.peak,
{
    a.peak
}

/// Resets the peak.
pub fn reset_spill_peak(a: &mut SpillAlloc)
    ensures
        *final(a) == (SpillAlloc { peak: 0, ..*old(a) }),
{
    a.peak = 0;
}

/// The header of a placed block; the system allocator's own blocks have none.
pub open spec fn header_of(p: Placement) -> Header {
    match p {
        Placement::Mapped { header } => header,
        Placement::System { header } => header,
        Placement::Direct => Header { magic: 0, fd: 0, total: 0 },
    }
}

/// A block is given back the way it came, whether the allocator is armed by then or not, and what is live
/// is what it was before.
pub proof fn law_release_mirrors(
    a: SpillAlloc,
    size: int,
    align: int,
    mapped: Option<i64>,
    armed: usize,
)
    requires
        0 <= size <= isize::MAX,
        a.count < u64::MAX,
        a.bytes + total_z(size) <= u64::MAX,
    ensures
        ({
            let (b, p) = allocated(a, size, align, mapped);
            let (c, r) = released(SpillAlloc { armed, ..b }, size, align, header_of(p));
            &&& c.count == a.count && c.bytes == a.bytes
            &&& match p {
                Placement::Direct => r == Release::Direct,
                Placement::Mapped { header } => r == (Release::Unmap {
                    fd: header.fd,
                    total: header.total,
                }),
                Placement::System { header } => r == (Release::System { total: header.total }),
            }
        }),
{
}

/// A large block holds its payload behind its header, in whole pages.
pub proof fn law_block_holds(size: int)
    requires
        0 <= size,
    ensures
        PAGE + size <= total_z(size) < 2 * PAGE + size,
        total_z(size) % (PAGE as int) == 0,
{
    let q = (size + PAGE - 1) / PAGE as int;
    vstd::arithmetic::div_mod::lemma_fundamental_div_mod(size + PAGE - 1, PAGE as int);
    assert(total_z(size) == (q + 1) * PAGE);
    vstd::arithmetic::div_mod::lemma_mod_multiples_basic(q + 1, PAGE as int);
}

/// An allocation keeps the live bytes under the peak, and so does a release.
pub proof fn law_peak_covers(
    a: SpillAlloc,
    size: int,
    align: int,
    mapped: Option<i64>,
    h: Header,
)
    requires
        within_peak(a),
        0 <= size <= isize::MAX,
        a.bytes + total_z(size) <= u64::MAX,
        h.magic == MAGIC_MMAP ==> a.bytes >= h.total,
    ensures
        within_peak(allocated(a, size, align, mapped).0),
        within_peak(released(a, size, align, h).0),
        allocated(a, size, align, mapped).0.peak >= a.peak,
{
}

/// The decimal digits of a number.
pub open spec fn decimal(v: nat) -> Seq<u8>
    decreases v,
{
    if v < 10 {
        seq![(48 + v) as u8]
    } else {
        decimal(v / 10).push((48 + v % 10) as u8)
    }
}

proof fn lemma_decimal_len(v: nat, k: nat, bound: nat)
    requires
        v < bound,
        bound == pow10(k),
        k >= 1,
    ensures
        1 <= decimal(v).len() <= k,
    decreases k,
{
    if v >= 10 {
        assert(k >= 2) by {
            reveal_with_fuel(pow10, 2);
        }
        assert(pow10(k) == 10 * pow10((k - 1) as nat));
        lemma_decimal_len(v / 10, (k - 1) as nat, pow10((k - 1) as nat));
    }
}

spec fn pow10(k: nat) -> nat
    decreases k,
{
    if k == 0 {
        1
    } else {
        10 * pow10((k - 1) as nat)
    }
}

/// A number of 64 bits has at most twenty digits.
pub proof fn lemma_decimal_u64(v: u64)
    ensures
        1 <= decimal(v as nat).len() <= 20,
{
    reveal_with_fuel(pow10, 21);
    lemma_decimal_len(v as nat, 20, pow10(20));
}

/// Writes the decimal digits of `v` into a buffer from `p` on and returns where they end.
pub fn put_u64(buf: &mut Vec<u8>, p: usize, v: u64) -> (r: usize)
    requires
        p + decimal(v as nat).len() <= old(buf).len(),
    ensures
        r == p + decimal(v as nat).len(),
        final(buf)@ == old(buf)@.take(p as int) + decimal(v as nat) + old(buf)@.skip(r as int),
{
    proof {
        lemma_decimal_u64(v);
    }
    let mut tmp: [u8; 20] = [0; 20];
    let mut i: usize = 20;
    let mut n: u64 = v;
    let ghost all = decimal(v as nat);
    if v == 0 {
        i = 19;
        tmp[19] = 48;
    }
    while n > 0
        invariant
            1 <= all.len() <= 20,
            all == decimal(v as nat),
            0 <= i <= 20,
            n == 0 ==> 20 - i == all.len(),
            n > 0 ==> decimal(n as nat) == all.take(all.len() - (20 - i)),
            n > 0 ==> 20 - i < all.len(),
            forall|j: int| i <= j < 20 ==> #[trigger] tmp@[j] == all[all.len() - (20 - j)],
        decreases n,
    {
        let ghost k = (20 - i) as int;
        let ghost front = all.take(all.len() - k);
        i = i - 1;
        tmp[i] = 48 + (n % 10) as u8;
        proof {
            assert(front.last() == 48 + n % 10);
            assert(front.last() == all[all.len() - k - 1]);
            if n >= 10 {
                assert(front == decimal((n / 10) as nat).push((48 + n % 10) as u8));
                assert(decimal((n / 10) as nat) =~= front.drop_last());
                assert(front.drop_last() =~= all.take(all.len() - (k + 1)));
                lemma_decimal_u64((n / 10) as u64);
            } else {
                assert(front.len() == 1);
            }
        }
        n = n / 10;
    }
    let len: usize = 20 - i;
    let ghost start = buf@;
    for j in 0..len
        invariant
            len == 20 - i,
            len == all.len(),
            p + len <= buf.len(),
            buf.len() == start.len(),
            forall|j: int| i <= j < 20 ==> #[trigger] tmp@[j] == all[all.len() - (20 - j)],
            forall|c: int|
                0 <= c < start.len() ==> #[trigger] buf@[c] == (if p <= c < p + j {
                    all[c - p]
                } else {
                    start[c]
                }),
    {
        assert(tmp@[i + j] == all[j as int]);
        buf.set(p + j, tmp[i + j]);
    }
    assert(buf@ =~= start.take(p as int) + all + start.skip(p + len));
    p + len
}

/// The bytes of a directory that are kept.
pub const DIR_MAX: usize = 255;

/// The name of a spill file: the directory, as far as it is kept, the process and a number, with a zero
/// behind it.
pub open spec fn path_z(dir: Seq<u8>, pid: nat, number: nat) -> Seq<u8> {
    let kept = if dir.len() < DIR_MAX {
        dir
    } else {
        dir.take(DIR_MAX as int)
    };
    kept + seq![47u8, 108, 97, 116, 45, 115, 112, 105, 108, 108, 45] + decimal(pid) + seq![45u8]
        + decimal(number) + seq![46u8, 116, 109, 112, 0]
}

fn put_bytes(buf: &mut Vec<u8>, more: &[u8])
    ensures
        final(buf)@ == old(buf)@ + more@,
{
    let n: usize = more.len();
    for i in 0..n
        invariant
            n == more@.len(),
            buf@ == old(buf)@ + more@.take(i as int),
    {
        buf.push(more[i]);
        assert(buf@ =~= old(buf)@ + more@.take(i + 1));
    }
    assert(buf@ =~= old(buf)@ + more@);
}

fn push_decimal(buf: &mut Vec<u8>, v: u64)
    requires
        old(buf).len() <= 512,
    ensures
        final(buf)@ == old(buf)@ + decimal(v as nat),
{
    proof {
        lemma_decimal_u64(v);
    }
    let p: usize = buf.len();
    let ghost start = buf@;
    for i in 0..20
        invariant
            buf.len() == p + i,
            p <= 512,
            buf@.take(p as int) == start,
    {
        buf.push(0);
        assert(buf@.take(p as int) =~= start);
    }
    let end: usize = put_u64(buf, p, v);
    buf.truncate(end);
    assert(buf@ =~= start + decimal(v as nat));
}

/// The name of a spill file.
pub fn spill_path(dir: &[u8], pid: u64, number: u64) -> (r: Vec<u8>)
    ensures
        r@ == path_z(dir@, pid as nat, number as nat),
        r.len() <= 384,
{
    let n: usize = if dir.len() < DIR_MAX {
        dir.len()
    } else {
        DIR_MAX
    };
    let mut path: Vec<u8> = Vec::new();
    for i in 0..n
        invariant
            n <= dir@.len(),
            path@ == dir@.take(i as int),
    {
        path.push(dir[i]);
        assert(path@ =~= dir@.take(i + 1));
    }
    assert(dir@.len() < DIR_MAX ==> dir@.take(n as int) =~= dir@);
    let prefix: [u8; 11] = [47, 108, 97, 116, 45, 115, 112, 105, 108, 108, 45];
    let suffix: [u8; 5] = [46, 116, 109, 112, 0];
    proof {
        lemma_decimal_u64(pid);
        lemma_decimal_u64(number);
    }
    put_bytes(&mut path, prefix.as_slice());
    push_decimal(&mut path, pid);
    path.push(45);
    push_decimal(&mut path, number);
    put_bytes(&mut path, suffix.as_slice());
    assert(prefix@ =~= seq![47u8, 108, 97, 116, 45, 115, 112, 105, 108, 108, 45]);
    assert(suffix@ =~= seq![46u8, 116, 109, 112, 0]);
    assert(path@ =~= path_z(dir@, pid as nat, number as nat));
    path
}

} // verus!
