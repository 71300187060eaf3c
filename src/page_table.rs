//! SV39 page tables: entries, flags, and the three-level table that owns the
//! frames of its nodes.

use vstd::prelude::*;
use std::collections::HashMap;
use crate::address::{PhysAddr, PhysPageNum, VirtAddr, VirtPageNum, PAGE_SIZE, PPN_LIMIT, VPN_LIMIT, floor_of};
use crate::frame_allocator::{FrameTracker, StackFrameAllocator, ppn_set};

verus! {

broadcast use vstd::std_specs::hash::group_hash_axioms;

/// The flag bits of a page-table entry:
/// V=1, R=2, W=4, X=8, U=16, G=32, A=64, D=128.
#[derive(Clone, Copy, Debug, PartialEq, Eq, Structural)]
pub struct PTEFlags {
    pub bits: u8,
}

pub const PTE_V: u8 = 1;
pub const PTE_R: u8 = 2;
pub const PTE_W: u8 = 4;
pub const PTE_X: u8 = 8;
pub const PTE_U: u8 = 16;
pub const PTE_G: u8 = 32;
pub const PTE_A: u8 = 64;
pub const PTE_D: u8 = 128;

impl PTEFlags {
    pub fn from_bits(bits: u8) -> (r: PTEFlags)
        ensures
            r.bits == bits,
    {
        PTEFlags { bits }
    }

    pub fn union(&self, other: PTEFlags) -> (r: PTEFlags)
        ensures
            r.bits == self.bits | other.bits,
    {
        PTEFlags { bits: self.bits | other.bits }
    }

    pub fn contains(&self, other: PTEFlags) -> (r: bool)
        ensures
            r == (self.bits & other.bits == other.bits),
    {
        self.bits & other.bits == other.bits
    }
}

/// One translation record: `ppn << 10 | flags`.
#[derive(Clone, Copy, Debug, PartialEq, Eq, Structural)]
pub struct PageTableEntry {
    pub bits: u64,
}

/// The encoding of an entry for page `ppn` with flag bits `flags`.
pub open spec fn pte_bits(ppn: u64, flags: u8) -> u64 {
    (ppn * 1024 + flags as u64) as u64
}

impl PageTableEntry {
    pub open spec fn ppn_spec(&self) -> u64 {
        ((self.bits / 1024) % (PPN_LIMIT as u64)) as u64
    }

    pub open spec fn flags_spec(&self) -> u8 {
        (self.bits % 256) as u8
    }

    pub open spec fn valid_spec(&self) -> bool {
        self.bits % 2 == 1
    }

    pub fn new(ppn: PhysPageNum, flags: PTEFlags) -> (r: PageTableEntry)
        requires
            ppn.0 < PPN_LIMIT,
        ensures
            r.bits == pte_bits(ppn.0, flags.bits),
            r.ppn_spec() == ppn.0,
            r.flags_spec() == flags.bits,
    {
        proof {
            lemma_pte_fields(ppn.0, flags.bits);
        }
        PageTableEntry { bits: ppn.0 * 1024 + flags.bits as u64 }
    }

    pub fn empty() -> (r: PageTableEntry)
        ensures
            r.bits == 0,
    {
        PageTableEntry { bits: 0 }
    }

    pub fn ppn(&self) -> (r: PhysPageNum)
        ensures
            r.0 == self.ppn_spec(),
    {
        PhysPageNum((self.bits / 1024) % PPN_LIMIT)
    }

    pub fn flags(&self) -> (r: PTEFlags)
        ensures
            r.bits == self.flags_spec(),
    {
        PTEFlags { bits: (self.bits % 256) as u8 }
    }

    pub fn is_valid(&self) -> (r: bool)
        ensures
            r == self.valid_spec(),
    {
        self.bits % 2 == 1
    }

    pub fn readable(&self) -> (r: bool)
        ensures
            r == ((self.bits / 2) % 2 == 1),
    {
        (self.bits / 2) % 2 == 1
    }

    pub fn writable(&self) -> (r: bool)
        ensures
            r == ((self.bits / 4) % 2 == 1),
    {
        (self.bits / 4) % 2 == 1
    }

    pub fn executable(&self) -> (r: bool)
        ensures
            r == ((self.bits / 8) % 2 == 1),
    {
        (self.bits / 8) % 2 == 1
    }
}

/// An entry built from a page number and flags gives both back unchanged.
pub proof fn lemma_pte_fields(ppn: u64, flags: u8)
    requires
        ppn < PPN_LIMIT,
    ensures
        (ppn * 1024 + (flags as u64)) < 0x40_0000_0000_0000,
        pte_bits(ppn, flags) / 1024 % (PPN_LIMIT as u64) == ppn,
        pte_bits(ppn, flags) % 256 == flags as u64,
        pte_bits(ppn, flags) % 2 == flags as u64 % 2,
{
    let b = ppn * 1024 + flags as u64;
    assert(ppn * 1024 + (flags as u64) < 0x40_0000_0000_0000) by (nonlinear_arith)
        requires ppn < 0x1000_0000_0000, flags < 256;
    assert(b / 1024 == ppn) by (nonlinear_arith)
        requires b == ppn * 1024 + flags as u64, flags < 256;
    assert(b % 256 == flags as u64) by (nonlinear_arith)
        requires b == ppn * 1024 + flags as u64, flags < 256;
    assert(b % 2 == flags as u64 % 2) by (nonlinear_arith)
        requires b == ppn * 1024 + flags as u64, flags < 256;
}

/// Setting the valid bit makes a flag byte odd.
proof fn lemma_valid_bit(f: u8)
    ensures
        (f | 1u8) % 2 == 1,
        (f | 1u8) as u64 % 2 == 1,
{
    assert((f | 1u8) % 2 == 1) by (bit_vector);
}

/// Index of the second-level node that a page goes through.
pub open spec fn upper_key(vpn: u64) -> u64 {
    (vpn / 0x40000) as u64
}

/// Index of the leaf node that a page goes through.
pub open spec fn lower_key(vpn: u64) -> u64 {
    (vpn / 512) as u64
}

/// A three-level SV39 page table. It owns the frame of its root and of every
/// node below it; the data frames it points to belong to others. A node of
/// the second level is known by the root index that leads to it (`upper`),
/// a leaf node by its two upper indexes (`lower`), and the valid leaf
/// entries are kept by page number.
pub struct PageTable {
    root_ppn: PhysPageNum,
    frames: Vec<FrameTracker>,
    upper: HashMap<u64, u64>,
    lower: HashMap<u64, u64>,
    leaves: HashMap<u64, PageTableEntry>,
}

impl PageTable {
    /// Every mapped page lies in the 27-bit page-number space.
    pub proof fn lemma_mapped_in_range(&self, v: u64)
        requires
            self.wf(),
            self@.contains_key(v),
        ensures
            v < VPN_LIMIT,
    {
    }

    /// The valid leaf entries, by virtual page number.
    pub closed spec fn view(&self) -> Map<u64, PageTableEntry> {
        self.leaves@
    }

    pub closed spec fn wf(&self) -> bool {
        &&& self.root_ppn.0 < PPN_LIMIT
        &&& self.frames@.len() > 0
        &&& self.frames@[0].ppn == self.root_ppn
        &&& forall|i: int, j: int|
            0 <= i < j < self.frames@.len() ==> #[trigger] self.frames@[i].ppn.0
                != #[trigger] self.frames@[j].ppn.0
        &&& forall|v: u64| #[trigger] self.leaves@.contains_key(v) ==> self.leaves@[v].valid_spec() && v < VPN_LIMIT
    }

    /// The frames of the table's own nodes, root included.
    pub closed spec fn frame_set(&self) -> Set<u64> {
        ppn_set(self.frames@)
    }

    /// The root page number.
    pub closed spec fn root_spec(&self) -> u64 {
        self.root_ppn.0
    }

    /// Every frame of the table's nodes is outstanding in `a`.
    pub open spec fn owned_by(&self, a: StackFrameAllocator) -> bool {
        self.frame_set().subset_of(a.outstanding())
    }

    /// 1 when the second-level node on the way to `vpn` is missing, else 0.
    pub closed spec fn missing_upper(&self, vpn: u64) -> nat {
        if self.upper@.contains_key(upper_key(vpn)) { 0nat } else { 1nat }
    }

    /// 1 when the leaf node on the way to `vpn` is missing, else 0.
    pub closed spec fn missing_lower(&self, vpn: u64) -> nat {
        if self.lower@.contains_key(lower_key(vpn)) { 0nat } else { 1nat }
    }

    /// How many node frames mapping `vpn` still needs (0, 1 or 2).
    pub open spec fn missing_nodes(&self, vpn: u64) -> nat {
        self.missing_upper(vpn) + self.missing_lower(vpn)
    }

    /// How many node frames mapping `vpn` still needs.
    pub fn missing_node_count(&self, vpn: VirtPageNum) -> (r: u64)
        ensures
            r == self.missing_nodes(vpn.0),
    {
        let u: u64 = if self.upper.contains_key(&(vpn.0 / 0x40000)) { 0 } else { 1 };
        let l: u64 = if self.lower.contains_key(&(vpn.0 / 512)) { 0 } else { 1 };
        u + l
    }

    /// Node frames that the pages `[w, e)` need beyond those that pages
    /// before them in the same run need: page `w` counts a missing node only
    /// where its index differs from that of page `w - 1`.
    pub open spec fn later_nodes(&self, w: u64, e: u64) -> int
        decreases e - w,
    {
        if w >= e || w == 0 {
            0
        } else {
            (if lower_key(w) != lower_key((w - 1) as u64) { self.missing_lower(w) as int } else { 0 })
                + (if upper_key(w) != upper_key((w - 1) as u64) { self.missing_upper(w) as int } else { 0 })
                + self.later_nodes((w + 1) as u64, e)
        }
    }

    /// Node frames that mapping the pages `[s, e)` one after the other takes:
    /// one for each leaf node and each second-level node that the pages go
    /// through and that does not exist yet.
    pub open spec fn nodes_needed(&self, s: u64, e: u64) -> int {
        if s >= e {
            0
        } else {
            self.missing_nodes(s) + self.later_nodes((s + 1) as u64, e)
        }
    }

    /// The value of [`PageTable::nodes_needed`].
    pub fn nodes_needed_count(&self, s: VirtPageNum, e: VirtPageNum) -> (r: u64)
        requires
            e.0 <= VPN_LIMIT,
        ensures
            r == self.nodes_needed(s.0, e.0),
    {
        if s.0 >= e.0 {
            return 0;
        }
        let mut acc: u64 = 0;
        let mut w: u64 = e.0;
        while w > s.0 + 1
            invariant
                s.0 + 1 <= w <= e.0,
                acc == self.later_nodes(w, e.0),
                acc <= 2 * (e.0 - w),
                e.0 <= VPN_LIMIT,
            decreases w,
        {
            let x = w - 1;
            let l: u64 = if x / 512 != (x - 1) / 512 && !self.lower.contains_key(&(x / 512)) { 1 } else { 0 };
            let u: u64 = if x / 0x40000 != (x - 1) / 0x40000 && !self.upper.contains_key(&(x / 0x40000)) { 1 } else { 0 };
            assert(self.later_nodes(x, e.0) == (if lower_key(x) != lower_key((x - 1) as u64) { self.missing_lower(x) as int } else { 0 })
                + (if upper_key(x) != upper_key((x - 1) as u64) { self.missing_upper(x) as int } else { 0 })
                + self.later_nodes(w, e.0));
            acc = acc + l + u;
            w = x;
        }
        let u: u64 = if self.upper.contains_key(&(s.0 / 0x40000)) { 0 } else { 1 };
        let l: u64 = if self.lower.contains_key(&(s.0 / 512)) { 0 } else { 1 };
        acc + l + u
    }

    /// A page goes through two nodes below the root.
    pub proof fn lemma_missing_nodes_bound(&self, vpn: u64)
        ensures
            self.missing_nodes(vpn) <= 2,
    {
    }

    /// A table with a root node and nothing mapped, or `None` when no frame
    /// is left.
    pub fn new(alloc: &mut StackFrameAllocator) -> (r: Option<PageTable>)
        requires
            old(alloc).wf(),
        ensures
            final(alloc).wf(),
            final(alloc).pool_start() == old(alloc).pool_start(),
            final(alloc).pool_end() == old(alloc).pool_end(),
            r is Some <==> old(alloc).free_count() > 0,
            match r {
                Some(pt) => {
                    &&& pt.wf()
                    &&& pt@ == Map::<u64, PageTableEntry>::empty()
                    &&& forall|v: u64| #[trigger] pt.missing_upper(v) == 1 && pt.missing_lower(v) == 1
                    &&& pt.frame_set() == set![pt.root_spec()]
                    &&& !old(alloc).outstanding().contains(pt.root_spec())
                    &&& final(alloc).outstanding() == old(alloc).outstanding().insert(pt.root_spec())
                    &&& final(alloc).free_count() == old(alloc).free_count() - 1
                },
                None => *final(alloc) == *old(alloc),
            },
    {
        match alloc.frame_alloc() {
            None => None,
            Some(f) => {
                let root = f.ppn;
                let mut frames: Vec<FrameTracker> = Vec::new();
                frames.push(f);
                let pt = PageTable {
                    root_ppn: root,
                    frames,
                    upper: HashMap::new(),
                    lower: HashMap::new(),
                    leaves: HashMap::new(),
                };
                assert(pt.leaves@ =~= Map::<u64, PageTableEntry>::empty());
                assert(pt.frame_set() =~= set![root.0]) by {
                    assert(pt.frames@[0].ppn.0 == root.0);
                };
                Some(pt)
            },
        }
    }

    /// Makes sure the node under `key` exists in `nodes`, taking a frame for
    /// it when it does not.
    fn ensure_node(
        nodes: &mut HashMap<u64, u64>,
        frames: &mut Vec<FrameTracker>,
        key: u64,
        alloc: &mut StackFrameAllocator,
    ) -> (r: bool)
        requires
            old(alloc).wf(),
            forall|i: int| 0 <= i < old(frames)@.len() ==> old(alloc).outstanding().contains(#[trigger] old(frames)@[i].ppn.0),
            forall|i: int, j: int|
                0 <= i < j < old(frames)@.len() ==> #[trigger] old(frames)@[i].ppn.0
                    != #[trigger] old(frames)@[j].ppn.0,
        ensures
            final(alloc).wf(),
            final(alloc).pool_start() == old(alloc).pool_start(),
            final(alloc).pool_end() == old(alloc).pool_end(),
            r == (old(nodes)@.contains_key(key) || old(alloc).free_count() > 0),
            r ==> final(nodes)@.contains_key(key),
            final(nodes)@.dom() == old(nodes)@.dom() || final(nodes)@.dom() == old(nodes)@.dom().insert(key),
            old(nodes)@.contains_key(key) ==> final(nodes)@ == old(nodes)@ && *final(alloc) == *old(alloc) && final(frames)@ == old(frames)@,
            !old(nodes)@.contains_key(key) ==> {
                if r {
                    &&& final(frames)@.len() == old(frames)@.len() + 1
                    &&& final(frames)@.drop_last() == old(frames)@
                    &&& final(alloc).outstanding() == old(alloc).outstanding().insert(final(frames)@.last().ppn.0)
                    &&& !old(alloc).outstanding().contains(final(frames)@.last().ppn.0)
                    &&& final(alloc).free_count() == old(alloc).free_count() - 1
                    &&& final(frames)@.last().ppn.0 < old(alloc).pool_end()
                } else {
                    &&& final(nodes)@ == old(nodes)@ && *final(alloc) == *old(alloc) && final(frames)@ == old(frames)@
                }
            },
            forall|i: int| 0 <= i < final(frames)@.len() ==> final(alloc).outstanding().contains(#[trigger] final(frames)@[i].ppn.0),
            forall|i: int, j: int|
                0 <= i < j < final(frames)@.len() ==> #[trigger] final(frames)@[i].ppn.0
                    != #[trigger] final(frames)@[j].ppn.0,
    {
        if nodes.contains_key(&key) {
            return true;
        }
        match alloc.frame_alloc() {
            None => false,
            Some(f) => {
                let p = f.ppn.0;
                frames.push(f);
                nodes.insert(key, p);
                assert(final(frames)@.drop_last() =~= old(frames)@);
                assert(nodes@.dom() =~= old(nodes)@.dom().insert(key));
                true
            },
        }
    }
}

impl PageTable {
    /// Maps `vpn` to `ppn` with `flags` plus the valid bit, first creating
    /// the nodes on the way that are missing. Fails, with nothing mapped,
    /// when the pool holds fewer frames than the missing nodes need.
    pub fn map(
        &mut self,
        vpn: VirtPageNum,
        ppn: PhysPageNum,
        flags: PTEFlags,
        alloc: &mut StackFrameAllocator,
    ) -> (r: bool)
        requires
            old(self).wf(),
            old(alloc).wf(),
            old(self).owned_by(*old(alloc)),
            !old(self)@.contains_key(vpn.0),
            vpn.0 < VPN_LIMIT,
            ppn.0 < PPN_LIMIT,
        ensures
            final(self).wf(),
            final(alloc).wf(),
            final(self).owned_by(*final(alloc)),
            final(alloc).pool_start() == old(alloc).pool_start(),
            final(alloc).pool_end() == old(alloc).pool_end(),
            final(self).root_spec() == old(self).root_spec(),
            r == (old(alloc).free_count() >= old(self).missing_nodes(vpn.0)),
            r ==> final(self)@ == old(self)@.insert(
                vpn.0,
                PageTableEntry { bits: pte_bits(ppn.0, flags.bits | 1u8) },
            ),
            r ==> final(self).missing_nodes(vpn.0) == 0,
            !r ==> final(self)@ == old(self)@,
            forall|v: u64| #[trigger] final(self).missing_upper(v) <= old(self).missing_upper(v),
            forall|v: u64| #[trigger] final(self).missing_lower(v) <= old(self).missing_lower(v),
            old(self).frame_set().subset_of(final(self).frame_set()),
            final(alloc).outstanding() == old(alloc).outstanding().union(
                final(self).frame_set().difference(old(self).frame_set()),
            ),
            old(alloc).outstanding().disjoint(
                final(self).frame_set().difference(old(self).frame_set()),
            ),
            final(alloc).free_count() + 2 >= old(alloc).free_count(),
            r ==> final(alloc).free_count() + old(self).missing_nodes(vpn.0) == old(alloc).free_count(),
    {
        let ghost old_frames = self.frames@;
        let uk = vpn.0 / 0x40000;
        let lk = vpn.0 / 512;
        let ok1 = Self::ensure_node(&mut self.upper, &mut self.frames, uk, alloc);
        let ghost mid_frames = self.frames@;
        let ok = if ok1 {
            Self::ensure_node(&mut self.lower, &mut self.frames, lk, alloc)
        } else {
            false
        };
        proof {
            assert(self.frames@.len() > 0 && self.frames@[0] == old_frames[0]) by {
                assert(mid_frames.len() > 0 && mid_frames[0] == old_frames[0]) by {
                    if mid_frames.len() > old_frames.len() {
                        assert(mid_frames.drop_last()[0] == mid_frames[0]);
                    }
                };
                if self.frames@.len() > mid_frames.len() {
                    assert(self.frames@.drop_last()[0] == self.frames@[0]);
                }
            };
            assert(self.frame_set() =~= old(self).frame_set().union(
                self.frame_set().difference(old(self).frame_set()))) by {
                assert forall|p: u64| old(self).frame_set().contains(p) implies self.frame_set().contains(p) by {
                    let i = choose|i: int| 0 <= i < old_frames.len() && old_frames[i].ppn.0 == p;
                    if mid_frames.len() > old_frames.len() {
                        assert(mid_frames.drop_last()[i] == mid_frames[i]);
                    }
                    if self.frames@.len() > mid_frames.len() {
                        assert(self.frames@.drop_last()[i] == self.frames@[i]);
                    }
                };
            };
            assert(alloc.outstanding() =~= old(alloc).outstanding().union(
                self.frame_set().difference(old(self).frame_set()))) by {
                assert forall|p: u64| self.frame_set().contains(p) && !old(self).frame_set().contains(p)
                    implies alloc.outstanding().contains(p) by {
                    let i = choose|i: int| 0 <= i < self.frames@.len() && self.frames@[i].ppn.0 == p;
                };
                assert forall|p: u64| alloc.outstanding().contains(p) && !old(alloc).outstanding().contains(p)
                    implies self.frame_set().contains(p) && !old(self).frame_set().contains(p) by {
                    if mid_frames.len() > old_frames.len() && p == mid_frames.last().ppn.0 {
                        assert(self.frame_set().contains(p)) by {
                            let i = mid_frames.len() - 1;
                            if self.frames@.len() > mid_frames.len() {
                                assert(self.frames@.drop_last()[i] == self.frames@[i]);
                            }
                            assert(self.frames@[i].ppn.0 == p);
                        };
                    } else {
                        assert(self.frames@.len() > mid_frames.len());
                        assert(self.frames@[self.frames@.len() - 1].ppn.0 == p);
                    }
                };
            };
            assert forall|p: u64| self.frame_set().contains(p) && !old(self).frame_set().contains(p)
                implies !old(alloc).outstanding().contains(p) by {
                let i = choose|i: int| 0 <= i < self.frames@.len() && self.frames@[i].ppn.0 == p;
                if i < old_frames.len() {
                    if mid_frames.len() > old_frames.len() {
                        assert(mid_frames.drop_last()[i] == mid_frames[i]);
                    }
                    if self.frames@.len() > mid_frames.len() {
                        assert(self.frames@.drop_last()[i] == self.frames@[i]);
                    }
                } else if i < mid_frames.len() {
                    if self.frames@.len() > mid_frames.len() {
                        assert(self.frames@.drop_last()[i] == self.frames@[i]);
                    }
                }
            };
        }
        if !ok {
            return false;
        }
        let f = flags.union(PTEFlags { bits: PTE_V });
        proof {
            lemma_valid_bit(flags.bits);
            lemma_pte_fields(ppn.0, f.bits);
        }
        let pte = PageTableEntry::new(ppn, f);
        self.leaves.insert(vpn.0, pte);
        true
    }

    /// Removes the mapping of `vpn`. The nodes on the way stay.
    pub fn unmap(&mut self, vpn: VirtPageNum)
        requires
            old(self).wf(),
            old(self)@.contains_key(vpn.0),
        ensures
            final(self).wf(),
            final(self)@ == old(self)@.remove(vpn.0),
            final(self).frame_set() == old(self).frame_set(),
            final(self).root_spec() == old(self).root_spec(),
            forall|v: u64| #[trigger] final(self).missing_upper(v) == old(self).missing_upper(v),
            forall|v: u64| #[trigger] final(self).missing_lower(v) == old(self).missing_lower(v),
    {
        self.leaves.remove(&vpn.0);
        assert(self.leaves@ =~= old(self).leaves@.remove(vpn.0));
    }

    /// The entry that maps `vpn`, if any.
    pub fn translate(&self, vpn: VirtPageNum) -> (r: Option<PageTableEntry>)
        ensures
            r == (if self@.contains_key(vpn.0) {
                Some(self@[vpn.0])
            } else {
                None
            }),
    {
        match self.leaves.get(&vpn.0) {
            Some(e) => Some(*e),
            None => None,
        }
    }

    /// The physical address that `va` maps to, if its page is mapped.
    pub fn translate_va(&self, va: VirtAddr) -> (r: Option<PhysAddr>)
        ensures
            match r {
                Some(pa) => {
                    &&& self@.contains_key(floor_of(va.0) as u64)
                    &&& pa.0 == self@[floor_of(va.0) as u64].ppn_spec() * PAGE_SIZE + va.0 % PAGE_SIZE
                },
                None => !self@.contains_key(floor_of(va.0) as u64),
            },
    {
        match self.translate(va.floor()) {
            Some(pte) => {
                let base = pte.ppn().0;
                assert(base * 4096 + 4095 < 0x100_0000_0000_0000) by (nonlinear_arith)
                    requires base < 0x1000_0000_0000;
                Some(PhysAddr(base * PAGE_SIZE + va.0 % PAGE_SIZE))
            },
            None => None,
        }
    }

    /// The value for the `satp` register: SV39 mode (8) in the top four bits
    /// and the root page number below.
    pub fn token(&self) -> (r: u64)
        requires
            self.wf(),
        ensures
            r == 0x8000_0000_0000_0000u64 + self.root_spec(),
    {
        0x8000_0000_0000_0000u64 + self.root_ppn.0
    }

    /// Returns every frame of the table's nodes to the pool.
    pub fn release(self, alloc: &mut StackFrameAllocator)
        requires
            self.wf(),
            old(alloc).wf(),
            self.owned_by(*old(alloc)),
        ensures
            final(alloc).wf(),
            final(alloc).pool_start() == old(alloc).pool_start(),
            final(alloc).pool_end() == old(alloc).pool_end(),
            final(alloc).outstanding() == old(alloc).outstanding().difference(self.frame_set()),
    {
        alloc.frame_dealloc_all(self.frames);
    }
}

/// Mapping an unmapped page, unmapping it and mapping it again leaves the
/// table as if only the second mapping had been made.
pub proof fn lemma_map_unmap_map(
    m: Map<u64, PageTableEntry>,
    vpn: u64,
    first: PageTableEntry,
    second: PageTableEntry,
)
    requires
        !m.contains_key(vpn),
    ensures
        m.insert(vpn, first).remove(vpn) == m,
        m.insert(vpn, first).remove(vpn).insert(vpn, second) == m.insert(vpn, second),
        m.insert(vpn, first).remove(vpn).insert(vpn, second)[vpn] == second,
{
    assert(m.insert(vpn, first).remove(vpn) =~= m);
}


/// Node frames that mapping the pages `[s, e)` can take, whatever exists.
pub open spec fn span_nodes(s: u64, e: u64) -> int {
    if s >= e {
        0
    } else {
        (lower_key((e - 1) as u64) - lower_key(s)) + 1 + (upper_key((e - 1) as u64) - upper_key(s)) + 1
    }
}

impl PageTable {
    /// The nodes that the first of the pages `[s, e)` needs are at most one
    /// The later pages of a run need at most one node per index they cross.
    pub proof fn lemma_later_nodes_bound(&self, w: u64, e: u64)
        requires
            1 <= w <= e,
        ensures
            0 <= self.later_nodes(w, e) <= (lower_key((e - 1) as u64) - lower_key((w - 1) as u64)) + (
            upper_key((e - 1) as u64) - upper_key((w - 1) as u64)),
        decreases e - w,
    {
        if w < e {
            self.lemma_later_nodes_bound((w + 1) as u64, e);
            assert(lower_key(w) == lower_key((w - 1) as u64) || lower_key(w) == lower_key((w - 1) as u64) + 1)
                by (nonlinear_arith) requires w >= 1;
            assert(upper_key(w) == upper_key((w - 1) as u64) || upper_key(w) == upper_key((w - 1) as u64) + 1)
                by (nonlinear_arith) requires w >= 1;
        }
    }

    /// With no more nodes missing anywhere, the later pages need no more.
    pub proof fn lemma_later_nodes_mono(before: PageTable, after: PageTable, w: u64, e: u64)
        requires
            forall|x: u64| #[trigger] after.missing_upper(x) <= before.missing_upper(x),
            forall|x: u64| #[trigger] after.missing_lower(x) <= before.missing_lower(x),
        ensures
            after.later_nodes(w, e) <= before.later_nodes(w, e),
        decreases e - w,
    {
        if w < e && w != 0 {
            Self::lemma_later_nodes_mono(before, after, (w + 1) as u64, e);
            assert(after.missing_upper(w) <= before.missing_upper(w));
            assert(after.missing_lower(w) <= before.missing_lower(w));
        }
    }

    /// Where every page's nodes exist, the later pages need none.
    pub proof fn lemma_later_nodes_zero(&self, w: u64, e: u64)
        requires
            forall|x: u64| w <= x < e ==> #[trigger] self.missing_upper(x) == 0 && self.missing_lower(x) == 0,
        ensures
            self.later_nodes(w, e) == 0,
        decreases e - w,
    {
        if w < e && w != 0 {
            self.lemma_later_nodes_zero((w + 1) as u64, e);
            assert(self.missing_upper(w) == 0 && self.missing_lower(w) == 0);
        }
    }

    /// Mapping `[s, e)` needs at most one node per index that the pages
    /// cross.
    pub proof fn lemma_nodes_needed_bound(&self, s: u64, e: u64)
        ensures
            0 <= self.nodes_needed(s, e) <= span_nodes(s, e),
            s < e ==> self.nodes_needed(s, e) >= self.missing_nodes(s),
    {
        if s < e {
            self.lemma_later_nodes_bound((s + 1) as u64, e);
        }
    }

    /// Mapping `[s, e)` needs no node frame where every page's nodes exist.
    pub proof fn lemma_nodes_needed_zero(&self, s: u64, e: u64)
        requires
            forall|x: u64| s <= x < e ==> #[trigger] self.missing_upper(x) == 0 && self.missing_lower(x) == 0,
        ensures
            self.nodes_needed(s, e) == 0,
    {
        if s < e {
            assert(self.missing_upper(s) == 0 && self.missing_lower(s) == 0);
            self.lemma_later_nodes_zero((s + 1) as u64, e);
        }
    }

    /// Mapping page `v` uses what its missing nodes need and leaves the rest
    /// of `[v, e)` needing no more than was counted for it.
    pub proof fn lemma_nodes_needed_step(before: PageTable, after: PageTable, v: u64, e: u64)
        requires
            v < e,
            after.missing_upper(v) == 0,
            after.missing_lower(v) == 0,
            forall|x: u64| #[trigger] after.missing_upper(x) <= before.missing_upper(x),
            forall|x: u64| #[trigger] after.missing_lower(x) <= before.missing_lower(x),
        ensures
            after.nodes_needed((v + 1) as u64, e) + before.missing_nodes(v) <= before.nodes_needed(v, e),
    {
        let w = (v + 1) as u64;
        if w < e {
            Self::lemma_later_nodes_mono(before, after, (w + 1) as u64, e);
            assert(after.missing_upper(w) <= before.missing_upper(w));
            assert(after.missing_lower(w) <= before.missing_lower(w));
            if lower_key(w) == lower_key(v) {
                assert(after.missing_lower(w) == after.missing_lower(v));
            }
            if upper_key(w) == upper_key(v) {
                assert(after.missing_upper(w) == after.missing_upper(v));
            }
        }
    }
}

} // verus!
