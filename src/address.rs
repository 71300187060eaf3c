//! Byte- and page-granular physical and virtual addresses for SV39.

use vstd::prelude::*;

verus! {

/// Bytes in one page.
pub const PAGE_SIZE: u64 = 4096;

/// Width of the in-page offset.
pub const PAGE_SIZE_BITS: u64 = 12;

/// One past the largest physical address (56 bits).
pub const PA_LIMIT: u64 = 0x100_0000_0000_0000;

/// One past the largest virtual address (39 bits).
pub const VA_LIMIT: u64 = 0x80_0000_0000;

/// One past the largest physical page number (44 bits).
pub const PPN_LIMIT: u64 = 0x1000_0000_0000;

/// One past the largest virtual page number (27 bits).
pub const VPN_LIMIT: u64 = 0x800_0000;

/// A physical byte address.
#[derive(Clone, Copy, Debug, PartialEq, Eq, Structural)]
pub struct PhysAddr(pub u64);

/// A virtual byte address.
#[derive(Clone, Copy, Debug, PartialEq, Eq, Structural)]
pub struct VirtAddr(pub u64);

/// A physical page number.
#[derive(Clone, Copy, Debug, PartialEq, Eq, Structural)]
pub struct PhysPageNum(pub u64);

/// A virtual page number.
#[derive(Clone, Copy, Debug, PartialEq, Eq, Structural)]
pub struct VirtPageNum(pub u64);

/// The page that holds byte address `a`.
pub open spec fn floor_of(a: u64) -> int {
    a as int / PAGE_SIZE as int
}

/// The first page boundary at or above byte address `a`, as a page number.
pub open spec fn ceil_of(a: u64) -> int {
    (a as int + PAGE_SIZE as int - 1) / PAGE_SIZE as int
}

impl PhysAddr {
    /// Keeps the low 56 bits of `v`.
    pub fn new(v: u64) -> (r: PhysAddr)
        ensures
            r.0 == v % PA_LIMIT,
    {
        PhysAddr(v % PA_LIMIT)
    }

    pub fn floor(&self) -> (r: PhysPageNum)
        ensures
            r.0 == floor_of(self.0),
    {
        PhysPageNum(self.0 / PAGE_SIZE)
    }

    pub fn ceil(&self) -> (r: PhysPageNum)
        ensures
            r.0 == ceil_of(self.0),
    {
        if self.0 == 0 {
            PhysPageNum(0)
        } else {
            PhysPageNum((self.0 - 1) / PAGE_SIZE + 1)
        }
    }

    pub fn page_offset(&self) -> (r: u64)
        ensures
            r == self.0 % PAGE_SIZE,
    {
        self.0 % PAGE_SIZE
    }

    pub fn aligned(&self) -> (r: bool)
        ensures
            r == (self.0 % PAGE_SIZE == 0),
    {
        self.0 % PAGE_SIZE == 0
    }
}

impl VirtAddr {
    /// Keeps the low 39 bits of `v`.
    pub fn new(v: u64) -> (r: VirtAddr)
        ensures
            r.0 == v % VA_LIMIT,
    {
        VirtAddr(v % VA_LIMIT)
    }

    pub fn floor(&self) -> (r: VirtPageNum)
        ensures
            r.0 == floor_of(self.0),
    {
        VirtPageNum(self.0 / PAGE_SIZE)
    }

    pub fn ceil(&self) -> (r: VirtPageNum)
        ensures
            r.0 == ceil_of(self.0),
    {
        if self.0 == 0 {
            VirtPageNum(0)
        } else {
            VirtPageNum((self.0 - 1) / PAGE_SIZE + 1)
        }
    }

    pub fn page_offset(&self) -> (r: u64)
        ensures
            r == self.0 % PAGE_SIZE,
    {
        self.0 % PAGE_SIZE
    }

    pub fn aligned(&self) -> (r: bool)
        ensures
            r == (self.0 % PAGE_SIZE == 0),
    {
        self.0 % PAGE_SIZE == 0
    }
}

impl PhysPageNum {
    /// Keeps the low 44 bits of `v`.
    pub fn new(v: u64) -> (r: PhysPageNum)
        ensures
            r.0 == v % PPN_LIMIT,
    {
        PhysPageNum(v % PPN_LIMIT)
    }

    /// The address of the first byte of this page.
    pub fn addr(&self) -> (r: PhysAddr)
        requires
            self.0 < PPN_LIMIT,
        ensures
            r.0 == self.0 * PAGE_SIZE,
    {
        PhysAddr(self.0 * PAGE_SIZE)
    }

    /// Advances to the next page.
    pub fn step(&mut self)
        requires
            old(self).0 < u64::MAX,
        ensures
            final(self).0 == old(self).0 + 1,
    {
        self.0 = self.0 + 1;
    }
}

impl VirtPageNum {
    /// Keeps the low 27 bits of `v`.
    pub fn new(v: u64) -> (r: VirtPageNum)
        ensures
            r.0 == v % VPN_LIMIT,
    {
        VirtPageNum(v % VPN_LIMIT)
    }

    /// The address of the first byte of this page.
    pub fn addr(&self) -> (r: VirtAddr)
        requires
            self.0 < VPN_LIMIT,
        ensures
            r.0 == self.0 * PAGE_SIZE,
            r.0 < VA_LIMIT,
    {
        VirtAddr(self.0 * PAGE_SIZE)
    }

    /// The three 9-bit indexes of this page number, root level first.
    pub fn indexes(&self) -> (r: [u64; 3])
        ensures
            r@[0] == (self.0 / 0x40000) % 512,
            r@[1] == (self.0 / 512) % 512,
            r@[2] == self.0 % 512,
    {
        [(self.0 / 0x40000) % 512, (self.0 / 512) % 512, self.0 % 512]
    }

    /// Advances to the next page.
    pub fn step(&mut self)
        requires
            old(self).0 < u64::MAX,
        ensures
            final(self).0 == old(self).0 + 1,
    {
        self.0 = self.0 + 1;
    }
}

/// Scaling the page that holds an address back to bytes drops exactly the
/// in-page offset of that address.
pub proof fn lemma_floor_scales_back(a: u64)
    ensures
        floor_of(a) * PAGE_SIZE == a - a % PAGE_SIZE,
        0 <= a % PAGE_SIZE < PAGE_SIZE,
{
    assert(a as int == (a as int / 4096) * 4096 + a as int % 4096) by (nonlinear_arith);
}

/// The virtual page numbers `[start, end)`.
#[derive(Clone, Copy, Debug, PartialEq, Eq, Structural)]
pub struct VPNRange {
    pub l: VirtPageNum,
    pub r: VirtPageNum,
}

impl VPNRange {
    pub open spec fn start_spec(&self) -> int {
        self.l.0 as int
    }

    pub open spec fn end_spec(&self) -> int {
        self.r.0 as int
    }

    pub open spec fn wf(&self) -> bool {
        self.l.0 <= self.r.0
    }

    /// The page numbers of the range, in order.
    pub open spec fn view(&self) -> Seq<int> {
        Seq::new((self.r.0 - self.l.0) as nat, |i: int| self.l.0 + i)
    }

    pub fn new(start: VirtPageNum, end: VirtPageNum) -> (r: VPNRange)
        requires
            start.0 <= end.0,
        ensures
            r.wf(),
            r.start_spec() == start.0,
            r.end_spec() == end.0,
    {
        VPNRange { l: start, r: end }
    }

    pub fn get_start(&self) -> (r: VirtPageNum)
        ensures
            r.0 == self.start_spec(),
    {
        self.l
    }

    pub fn get_end(&self) -> (r: VirtPageNum)
        ensures
            r.0 == self.end_spec(),
    {
        self.r
    }

    /// Number of pages in the range.
    pub fn len(&self) -> (r: u64)
        requires
            self.wf(),
        ensures
            r == self.end_spec() - self.start_spec(),
    {
        self.r.0 - self.l.0
    }

    pub fn contains(&self, vpn: VirtPageNum) -> (r: bool)
        ensures
            r == (self.start_spec() <= vpn.0 < self.end_spec()),
    {
        self.l.0 <= vpn.0 && vpn.0 < self.r.0
    }

    /// Walks the range one page at a time and collects the page numbers.
    pub fn to_vec(&self) -> (r: Vec<VirtPageNum>)
        requires
            self.wf(),
        ensures
            r@.len() == self@.len(),
            forall|i: int| 0 <= i < r@.len() ==> r@[i].0 == #[trigger] self@[i],
    {
        let mut out: Vec<VirtPageNum> = Vec::new();
        let mut cur = self.l;
        while cur.0 < self.r.0
            invariant
                self.l.0 <= cur.0 <= self.r.0,
                out@.len() == cur.0 - self.l.0,
                forall|i: int| 0 <= i < out@.len() ==> out@[i].0 == self.l.0 + i,
            decreases self.r.0 - cur.0,
        {
            out.push(cur);
            cur.step();
        }
        out
    }
}

} // verus!
