//! Address spaces: one page table plus non-overlapping mapped regions.

use vstd::prelude::*;
use crate::address::{PhysPageNum, VirtAddr, VirtPageNum, VPNRange, PPN_LIMIT, VPN_LIMIT, VA_LIMIT, floor_of, ceil_of};
use crate::frame_allocator::{FrameTracker, StackFrameAllocator, ppn_set};
use crate::page_table::{PageTable, PageTableEntry, PTEFlags, pte_bits, lemma_pte_fields, span_nodes};
use crate::user_access::{PhysMemory, phys_of, user_byte};

verus! {

/// How the pages of a region find their frames.
#[derive(Clone, Copy, Debug, PartialEq, Eq, Structural)]
pub enum MapType {
    /// Each page maps to the frame with the same number.
    Identical,
    /// Each page maps to a frame of its own that the region owns.
    Framed,
    /// Page `v` maps to frame `v - offset`.
    Linear(u64),
}

/// Region permissions: R=2, W=4, X=8, U=16, as in a page-table entry.
#[derive(Clone, Copy, Debug, PartialEq, Eq, Structural)]
pub struct MapPermission {
    pub bits: u8,
}

pub const MAP_R: u8 = 2;
pub const MAP_W: u8 = 4;
pub const MAP_X: u8 = 8;
pub const MAP_U: u8 = 16;

impl MapPermission {
    /// Keeps the R, W, X and U bits of `bits`.
    pub fn from_bits_truncate(bits: u8) -> (r: MapPermission)
        ensures
            r.bits == bits & 30u8,
    {
        MapPermission { bits: bits & 30u8 }
    }

    pub fn union(&self, other: MapPermission) -> (r: MapPermission)
        ensures
            r.bits == self.bits | other.bits,
    {
        MapPermission { bits: self.bits | other.bits }
    }

    pub fn contains(&self, other: MapPermission) -> (r: bool)
        ensures
            r == (self.bits & other.bits == other.bits),
    {
        self.bits & other.bits == other.bits
    }
}

/// Whether `[s1, e1)` and `[s2, e2)` share a page.
pub open spec fn ranges_meet(s1: int, e1: int, s2: int, e2: int) -> bool {
    s1 < e1 && s2 < e2 && s1 < e2 && s2 < e1
}

/// A contiguous run of virtual pages with one mapping kind and one set of
/// permissions. A framed region owns one frame per page, in page order.
pub struct MapArea {
    vpn_range: VPNRange,
    data_frames: Vec<FrameTracker>,
    map_type: MapType,
    map_perm: MapPermission,
}

impl MapArea {
    pub closed spec fn start(&self) -> int {
        self.vpn_range.l.0 as int
    }

    pub closed spec fn end(&self) -> int {
        self.vpn_range.r.0 as int
    }

    pub closed spec fn kind(&self) -> MapType {
        self.map_type
    }

    pub closed spec fn perm(&self) -> u8 {
        self.map_perm.bits
    }

    /// (first page, one past the last page, kind, permission bits)
    pub closed spec fn view(&self) -> (int, int, MapType, u8) {
        (self.start(), self.end(), self.map_type, self.map_perm.bits)
    }

    pub open spec fn covers(&self, v: int) -> bool {
        self.start() <= v < self.end()
    }

    /// The frame that page `v` of this region maps to.
    pub closed spec fn target(&self, v: int) -> u64 {
        match self.map_type {
            MapType::Identical => v as u64,
            MapType::Framed => self.data_frames@[v - self.start()].ppn.0,
            MapType::Linear(o) => (v - o) as u64,
        }
    }

    /// Frames the region takes for its data: one per page if framed.
    pub closed spec fn data_pages(&self) -> int {
        if self.map_type == MapType::Framed { self.end() - self.start() } else { 0 }
    }

    /// The page-table entry that page `v` of this region gets.
    pub closed spec fn entry(&self, v: int) -> PageTableEntry {
        PageTableEntry { bits: pte_bits(self.target(v), self.map_perm.bits | 1u8) }
    }

    /// The frames that this region owns.
    pub closed spec fn frame_set(&self) -> Set<u64> {
        ppn_set(self.data_frames@)
    }

    /// Shape of the region once every page has been mapped.
    pub closed spec fn wf(&self) -> bool {
        &&& self.vpn_range.l.0 <= self.vpn_range.r.0 <= VPN_LIMIT
        &&& self.frames_wf(self.vpn_range.r.0 - self.vpn_range.l.0)
    }

    /// The region owns `n` distinct frames if framed, none otherwise.
    pub closed spec fn frames_wf(&self, n: int) -> bool {
        &&& (self.map_type == MapType::Framed ==> self.data_frames@.len() == n)
        &&& (self.map_type != MapType::Framed ==> self.data_frames@.len() == 0)
        &&& match self.map_type {
            MapType::Linear(o) => o <= self.vpn_range.l.0,
            _ => true,
        }
        &&& forall|i: int| 0 <= i < self.data_frames@.len() ==> #[trigger] self.data_frames@[i].ppn.0 < PPN_LIMIT
        &&& forall|i: int, j: int|
            0 <= i < j < self.data_frames@.len() ==> #[trigger] self.data_frames@[i].ppn.0
                != #[trigger] self.data_frames@[j].ppn.0
    }

    /// A region over `[floor(start_va), ceil(end_va))` that owns no frame yet.
    fn new(start_va: VirtAddr, end_va: VirtAddr, map_type: MapType, map_perm: MapPermission) -> (r: MapArea)
        requires
            floor_of(start_va.0) <= ceil_of(end_va.0),
            end_va.0 <= VPN_LIMIT * 4096,
            match map_type {
                MapType::Linear(o) => o <= floor_of(start_va.0),
                _ => true,
            },
        ensures
            r.start() == floor_of(start_va.0),
            r.end() == ceil_of(end_va.0),
            r.kind() == map_type,
            r.perm() == map_perm.bits,
            r.data_frames@.len() == 0,
            r.vpn_range.l.0 <= r.vpn_range.r.0 <= VPN_LIMIT,
    {
        let s = start_va.floor();
        let e = end_va.ceil();
        MapArea { vpn_range: VPNRange::new(s, e), data_frames: Vec::new(), map_type, map_perm }
    }
}

/// Going from outstanding frames `a0` to `a1` took exactly the frames that
/// an owner gained in going from `o0` to `o1`, none of them outstanding
/// before.
pub open spec fn takes_frames(a0: Set<u64>, a1: Set<u64>, o0: Set<u64>, o1: Set<u64>) -> bool {
    &&& o0.subset_of(o1)
    &&& a1 == a0.union(o1.difference(o0))
    &&& a0.disjoint(o1.difference(o0))
}

/// Outstanding frames that were `base` plus what an owner holds stay so
/// when the owner takes more.
proof fn lemma_takes_frames_compose(base: Set<u64>, a0: Set<u64>, a1: Set<u64>, o0: Set<u64>, o1: Set<u64>)
    requires
        a0 == base.union(o0),
        base.disjoint(o0),
        takes_frames(a0, a1, o0, o1),
    ensures
        a1 == base.union(o1),
        base.disjoint(o1),
{
    assert(a1 =~= base.union(o1));
    assert forall|x: u64| o1.contains(x) implies !base.contains(x) by {
        if !o0.contains(x) {
            assert(o1.difference(o0).contains(x));
            assert(!a0.contains(x));
        }
    };
}

/// Handing back what an owner holds leaves what was outstanding before.
proof fn lemma_release_restores(base: Set<u64>, o: Set<u64>)
    requires
        base.disjoint(o),
    ensures
        base.union(o).difference(o) == base,
{
    assert(base.union(o).difference(o) =~= base);
}

/// Taking no frame.
proof fn lemma_takes_nothing(a: Set<u64>, o: Set<u64>)
    ensures
        takes_frames(a, a, o, o),
{
    assert(a =~= a.union(o.difference(o)));
}

/// An address space.
pub struct MemorySet {
    page_table: PageTable,
    areas: Vec<MapArea>,
}

impl MemorySet {
    /// The regions, in the order they were added.
    pub closed spec fn view(&self) -> Seq<(int, int, MapType, u8)> {
        self.areas@.map_values(|a: MapArea| a@)
    }

    /// The page table's valid entries.
    pub closed spec fn mapping(&self) -> Map<u64, PageTableEntry> {
        self.page_table@
    }

    pub closed spec fn root_spec(&self) -> u64 {
        self.page_table.root_spec()
    }

    /// Node frames that mapping the pages `[s, e)` into this space takes: the
    /// leaf and second-level nodes its pages go through that do not exist yet
    /// (see [`PageTable::nodes_needed`]).
    pub closed spec fn frames_needed(&self, s: u64, e: u64) -> int {
        self.page_table.nodes_needed(s, e)
    }

    /// The frames of region `i` in the order a removal hands them back: last
    /// page first.
    pub closed spec fn area_release_order(&self, i: int) -> Seq<u64> {
        let f = self.areas@[i].data_frames@;
        Seq::new(f.len(), |k: int| f[f.len() - 1 - k].ppn.0)
    }

    /// The page-table nodes on the way to page `v` exist.
    pub closed spec fn nodes_present(&self, v: u64) -> bool {
        self.page_table.missing_upper(v) == 0 && self.page_table.missing_lower(v) == 0
    }

    /// The frames that region `i` owns.
    pub closed spec fn area_frames(&self, i: int) -> Set<u64> {
        self.areas@[i].frame_set()
    }

    pub closed spec fn wf(&self) -> bool {
        &&& self.page_table.wf()
        &&& forall|i: int| 0 <= i < self.areas@.len() ==> (#[trigger] self.areas@[i]).wf()
        &&& forall|i: int, j: int|
            0 <= i < j < self.areas@.len() ==> !ranges_meet(
                (#[trigger] self.areas@[i]).start(),
                self.areas@[i].end(),
                (#[trigger] self.areas@[j]).start(),
                self.areas@[j].end(),
            )
        &&& forall|v: u64| #[trigger] self.page_table@.contains_key(v) ==> exists|i: int|
            0 <= i < self.areas@.len() && (#[trigger] self.areas@[i]).covers(v as int)
        &&& forall|i: int, v: u64|
            0 <= i < self.areas@.len() && (#[trigger] self.areas@[i]).covers(v as int) ==> {
                &&& #[trigger] self.page_table@.contains_key(v)
                &&& self.page_table@[v] == self.areas@[i].entry(v as int)
            }
        &&& forall|i: int| 0 <= i < self.areas@.len() ==> (#[trigger] self.areas@[i]).frame_set().disjoint(self.page_table.frame_set())
        &&& forall|i: int, j: int|
            0 <= i < self.areas@.len() && 0 <= j < self.areas@.len() && i != j ==> (#[trigger] self.areas@[i]).frame_set().disjoint((#[trigger] self.areas@[j]).frame_set())
    }

    /// Every frame that this space owns is outstanding in `a`.
    pub closed spec fn owned_by(&self, a: StackFrameAllocator) -> bool {
        &&& self.page_table.owned_by(a)
        &&& forall|i: int| 0 <= i < self.areas@.len() ==> (#[trigger] self.areas@[i]).frame_set().subset_of(a.outstanding())
    }

    /// An address space with no region, or `None` when no frame is left for
    /// the root of its page table.
    pub fn new_bare(alloc: &mut StackFrameAllocator) -> (r: Option<MemorySet>)
        requires
            old(alloc).wf(),
        ensures
            final(alloc).wf(),
            final(alloc).pool_start() == old(alloc).pool_start(),
            final(alloc).pool_end() == old(alloc).pool_end(),
            r is Some <==> old(alloc).free_count() > 0,
            match r {
                Some(ms) => {
                    &&& ms.wf()
                    &&& ms.owned_by(*final(alloc))
                    &&& ms@ == Seq::<(int, int, MapType, u8)>::empty()
                    &&& ms.mapping() == Map::<u64, PageTableEntry>::empty()
                    &&& final(alloc).free_count() == old(alloc).free_count() - 1
                    &&& final(alloc).outstanding() == old(alloc).outstanding().union(ms.owned_frames())
                    &&& old(alloc).outstanding().disjoint(ms.owned_frames())
                },
                None => *final(alloc) == *old(alloc),
            },
    {
        match PageTable::new(alloc) {
            None => None,
            Some(pt) => {
                let ms = MemorySet { page_table: pt, areas: Vec::new() };
                assert(ms@ =~= Seq::<(int, int, MapType, u8)>::empty());
                assert(ms.page_table.owned_by(*alloc)) by {
                    assert(ms.page_table.frame_set().contains(ms.page_table.root_spec()));
                };
                assert(ms.owned_frames() =~= set![ms.page_table.root_spec()]);
                Some(ms)
            },
        }
    }

    /// The value for the `satp` register that selects this space.
    pub fn token(&self) -> (r: u64)
        requires
            self.wf(),
        ensures
            r == 0x8000_0000_0000_0000u64 + self.root_spec(),
    {
        self.page_table.token()
    }

    /// The entry that maps `vpn` in this space, if any.
    pub fn translate(&self, vpn: VirtPageNum) -> (r: Option<PageTableEntry>)
        ensures
            r == (if self.mapping().contains_key(vpn.0) {
                Some(self.mapping()[vpn.0])
            } else {
                None
            }),
    {
        self.page_table.translate(vpn)
    }

    /// The page table of this space.
    pub fn page_table(&self) -> (r: &PageTable)
        ensures
            r@ == self.mapping(),
    {
        &self.page_table
    }

    /// Number of regions.
    pub fn area_count(&self) -> (r: usize)
        ensures
            r == self@.len(),
    {
        self.areas.len()
    }

    /// Whether the pages `[floor(start_va), ceil(end_va))` meet a region.
    pub fn has_conflict_with_range(&self, start_va: VirtAddr, end_va: VirtAddr) -> (r: bool)
        ensures
            r == exists|i: int|
                0 <= i < self@.len() && ranges_meet(
                    floor_of(start_va.0),
                    ceil_of(end_va.0),
                    (#[trigger] self@[i]).0,
                    self@[i].1,
                ),
    {
        let s = start_va.floor().0;
        let e = end_va.ceil().0;
        let mut i: usize = 0;
        while i < self.areas.len()
            invariant
                0 <= i <= self.areas@.len(),
                s == floor_of(start_va.0),
                e == ceil_of(end_va.0),
                forall|k: int| 0 <= k < i ==> !ranges_meet(
                    s as int,
                    e as int,
                    (#[trigger] self@[k]).0,
                    self@[k].1,
                ),
            decreases self.areas.len() - i,
        {
            let a = &self.areas[i];
            let (as_, ae) = (a.vpn_range.get_start().0, a.vpn_range.get_end().0);
            if s < e && as_ < ae && s < ae && as_ < e {
                assert(self@[i as int] == a@);
                return true;
            }
            assert(self@[i as int] == a@);
            i = i + 1;
        }
        false
    }
}

impl MemorySet {
    /// Maps every page of `area` and adds it to the regions. A framed region
    /// takes a fresh frame for each page. Before each page it makes sure the
    /// pool holds what that page needs (its data frame and its missing
    /// nodes); where it does not, the region is cut short at that page and
    /// the result is `false`.
    #[verifier::rlimit(100)]
    #[verifier::spinoff_prover]
    fn push_area(&mut self, area: MapArea, alloc: &mut StackFrameAllocator) -> (r: bool)
        requires
            old(self).wf(),
            old(alloc).wf(),
            old(self).owned_by(*old(alloc)),
            area.vpn_range.l.0 <= area.vpn_range.r.0 <= VPN_LIMIT,
            area.data_frames@.len() == 0,
            match area.map_type {
                MapType::Linear(o) => o <= area.vpn_range.l.0,
                _ => true,
            },
            forall|i: int|
                0 <= i < old(self).areas@.len() ==> !ranges_meet(
                    (#[trigger] old(self).areas@[i]).start(),
                    old(self).areas@[i].end(),
                    area.start(),
                    area.end(),
                ),
        ensures
            old(alloc).free_count() >= area.data_pages() + old(self).frames_needed(area.start() as u64, area.end() as u64) ==> r,
            !r ==> final(self)@.len() == old(self)@.len() + 1,
            takes_frames(old(alloc).outstanding(), final(alloc).outstanding(), old(self).owned_frames(), final(self).owned_frames()),
            r ==> final(alloc).free_count() + area.data_pages() + old(self).frames_needed(area.start() as u64, area.end() as u64)
                >= old(alloc).free_count(),
            r && area.kind() == MapType::Framed ==> forall|v: u64| #[trigger] area.covers(v as int) ==> {
                &&& final(alloc).outstanding().contains(final(self).mapping()[v].ppn_spec())
                &&& !old(alloc).outstanding().contains(final(self).mapping()[v].ppn_spec())
            },
            r && area.kind() == MapType::Framed ==> forall|v1: u64, v2: u64|
                #[trigger] area.covers(v1 as int) && #[trigger] area.covers(v2 as int) && v1 != v2
                ==> final(self).mapping()[v1].ppn_spec() != final(self).mapping()[v2].ppn_spec(),
            final(self).wf(),
            final(alloc).wf(),
            final(self).owned_by(*final(alloc)),
            final(alloc).pool_start() == old(alloc).pool_start(),
            final(alloc).pool_end() == old(alloc).pool_end(),
            final(self).root_spec() == old(self).root_spec(),
            r ==> final(self)@ == old(self)@.push(area@),
            r ==> forall|v: u64| #[trigger] area.covers(v as int) ==> final(self).nodes_present(v),
            forall|v: u64| #[trigger] old(self).nodes_present(v) ==> final(self).nodes_present(v),
            r ==> forall|v: u64| !area.covers(v as int) ==> {
                &&& #[trigger] final(self).mapping().contains_key(v) == old(self).mapping().contains_key(v)
                &&& old(self).mapping().contains_key(v) ==> final(self).mapping()[v] == old(self).mapping()[v]
            },
            r ==> forall|v: u64| #[trigger] area.covers(v as int) ==> {
                &&& final(self).mapping().contains_key(v)
                &&& final(self).mapping()[v].flags_spec() == area.perm() | 1u8
                &&& area.kind() != MapType::Framed ==> final(self).mapping()[v].ppn_spec() == area.target(v as int)
            },
    {
        let mut area = area;
        let ghost area0 = area;
        let ghost old_pt = self.page_table@;
        let start = area.vpn_range.l.0;
        let end = area.vpn_range.r.0;
        proof {
            assert forall|u: u64| start <= u < end implies !old_pt.contains_key(u) by {
                if old_pt.contains_key(u) {
                    let i = choose|i: int| 0 <= i < self.areas@.len() && (#[trigger] self.areas@[i]).covers(u as int);
                    assert(!ranges_meet(self.areas@[i].start(), self.areas@[i].end(), area.start(), area.end()));
                }
            };
        }
        assert(area.frame_set() =~= Set::<u64>::empty());
        assert(self.page_table.frame_set().difference(old(self).page_table.frame_set()) =~= Set::<u64>::empty());
        assert(alloc.outstanding() =~= old(alloc).outstanding().union(
            self.page_table.frame_set().difference(old(self).page_table.frame_set())).union(area.frame_set()));
        let mut v: u64 = start;
        let mut go = true;
        while v < end && go
            invariant
                start <= v <= end <= VPN_LIMIT,
                !go ==> old(alloc).free_count() < area0.data_pages() + old(self).page_table.nodes_needed(start, end),
                start == area0.vpn_range.l.0,
                end == area0.vpn_range.r.0,
                area.vpn_range == area0.vpn_range,
                area.map_type == area0.map_type,
                area.map_perm == area0.map_perm,
                area.frames_wf(v - start),
                self.areas@ == old(self).areas@,
                self.page_table.wf(),
                self.page_table.root_spec() == old(self).page_table.root_spec(),
                alloc.wf(),
                alloc.pool_start() == old(alloc).pool_start(),
                alloc.pool_end() == old(alloc).pool_end(),
                self.page_table.owned_by(*alloc),
                area.frame_set().subset_of(alloc.outstanding()),
                area.frame_set().disjoint(self.page_table.frame_set()),
                forall|i: int| 0 <= i < self.areas@.len() ==> {
                    &&& (#[trigger] self.areas@[i]).frame_set().subset_of(alloc.outstanding())
                    &&& self.areas@[i].frame_set().disjoint(self.page_table.frame_set())
                    &&& self.areas@[i].frame_set().disjoint(area.frame_set())
                },
                old(alloc).free_count() >= area0.data_pages() + old(self).page_table.nodes_needed(start, end)
                    ==> alloc.free_count() >= (if area0.map_type == MapType::Framed { end - v } else { 0 })
                        + self.page_table.nodes_needed(v, end),
                forall|u: u64| start <= u < v ==> #[trigger] self.page_table.missing_upper(u) == 0 && self.page_table.missing_lower(u) == 0,
                forall|u: u64| #[trigger] old(self).page_table.missing_upper(u) >= self.page_table.missing_upper(u),
                forall|u: u64| #[trigger] old(self).page_table.missing_lower(u) >= self.page_table.missing_lower(u),
                alloc.free_count() + (if area0.map_type == MapType::Framed { v - start } else { 0 })
                    + old(self).page_table.nodes_needed(start, end) >= old(alloc).free_count() + self.page_table.nodes_needed(v, end),
                old(self).page_table.frame_set().subset_of(self.page_table.frame_set()),
                alloc.outstanding() == old(alloc).outstanding().union(
                    self.page_table.frame_set().difference(old(self).page_table.frame_set())).union(area.frame_set()),
                old(alloc).outstanding().disjoint(
                    self.page_table.frame_set().difference(old(self).page_table.frame_set()).union(area.frame_set())),
                forall|u: u64| #[trigger] self.page_table@.contains_key(u) <==> (old_pt.contains_key(u) || start <= u < v),
                forall|u: u64| #[trigger] old_pt.contains_key(u) ==> self.page_table@[u] == old_pt[u],
                forall|u: u64| start <= u < v ==> #[trigger] self.page_table@[u] == area.entry(u as int),
                forall|u: u64| start <= u < end ==> !(#[trigger] old_pt.contains_key(u)),
            decreases end - v + (if go { 1int } else { 0int }),
        {
            let d: u64 = match area.map_type {
                MapType::Framed => 1,
                _ => 0,
            };
            proof {
                self.page_table.lemma_nodes_needed_bound(v, end);
                self.page_table.lemma_missing_nodes_bound(v);
            }
            if alloc.free_frames() < d + self.page_table.missing_node_count(VirtPageNum(v)) {
                go = false;
            } else {
                let ghost pt_before = self.page_table;
                let ghost alloc_before = *alloc;
                let ghost area_before = area;
                let target: u64 = match area.map_type {
                    MapType::Identical => v,
                    MapType::Linear(o) => v - o,
                    MapType::Framed => {
                        let f = alloc.frame_alloc().unwrap();
                        let p = f.ppn.0;
                        area.data_frames.push(f);
                        proof {
                            assert(area.frame_set() =~= area_before.frame_set().insert(p)) by {
                                assert forall|q: u64| area.frame_set().contains(q) implies q == p || area_before.frame_set().contains(q) by {
                                    let i = choose|i: int| 0 <= i < area.data_frames@.len() && area.data_frames@[i].ppn.0 == q;
                                    if i < area_before.data_frames@.len() {
                                        assert(area_before.data_frames@[i] == area.data_frames@[i]);
                                    }
                                };
                                assert forall|q: u64| area_before.frame_set().contains(q) implies area.frame_set().contains(q) by {
                                    let i = choose|i: int| 0 <= i < area_before.data_frames@.len() && area_before.data_frames@[i].ppn.0 == q;
                                    assert(area_before.data_frames@[i] == area.data_frames@[i]);
                                };
                                assert(area.data_frames@[area.data_frames@.len() - 1].ppn.0 == p);
                            };
                            assert forall|i: int, j: int|
                                0 <= i < j < area.data_frames@.len() implies #[trigger] area.data_frames@[i].ppn.0
                                    != #[trigger] area.data_frames@[j].ppn.0 by {
                                if j == area.data_frames@.len() - 1 {
                                    assert(area_before.data_frames@[i] == area.data_frames@[i]);
                                    assert(area_before.frame_set().contains(area.data_frames@[i].ppn.0));
                                } else {
                                    assert(area_before.data_frames@[i] == area.data_frames@[i]);
                                    assert(area_before.data_frames@[j] == area.data_frames@[j]);
                                }
                            };
                            assert forall|i: int| 0 <= i < area.data_frames@.len() implies #[trigger] area.data_frames@[i].ppn.0 < PPN_LIMIT by {
                                if i < area_before.data_frames@.len() {
                                    assert(area_before.data_frames@[i] == area.data_frames@[i]);
                                }
                            };
                            assert(!pt_before.frame_set().contains(p));
                        }
                        p
                    },
                };
                let ghost alloc_mid = *alloc;
                proof {
                    assert(target < PPN_LIMIT);
                    assert(area.frames_wf(v + 1 - start));
                    assert forall|i: int| 0 <= i < self.areas@.len() implies {
                        &&& (#[trigger] self.areas@[i]).frame_set().subset_of(alloc.outstanding())
                        &&& self.areas@[i].frame_set().disjoint(area.frame_set())
                    } by {
                        assert(self.areas@[i].frame_set().subset_of(alloc_before.outstanding()));
                    };
                    assert(area.frame_set().subset_of(alloc.outstanding()));
                    assert(pt_before.owned_by(*alloc));
                }
                let ok = self.page_table.map(VirtPageNum(v), PhysPageNum(target), PTEFlags { bits: area.map_perm.bits }, alloc);
                proof {
                    assert(ok);
                    PageTable::lemma_nodes_needed_step(pt_before, self.page_table, v, end);
                    assert forall|u: u64| start <= u < v + 1 implies #[trigger] self.page_table.missing_upper(u) == 0 && self.page_table.missing_lower(u) == 0 by {
                        if u < v {
                            assert(pt_before.missing_upper(u) == 0 && pt_before.missing_lower(u) == 0);
                        }
                    };
                let o_out = old(alloc).outstanding();
                let pt0 = old(self).page_table.frame_set();
                let newer = self.page_table.frame_set().difference(pt0).union(area.frame_set());
                assert forall|x: u64| newer.contains(x) implies !o_out.contains(x) by {
                    if self.page_table.frame_set().contains(x) && !pt_before.frame_set().contains(x) {
                        assert(!alloc_mid.outstanding().contains(x));
                    } else if area.frame_set().contains(x) && !area_before.frame_set().contains(x) {
                        assert(!alloc_before.outstanding().contains(x));
                    }
                };
                assert(alloc.outstanding() =~= o_out.union(self.page_table.frame_set().difference(pt0)).union(area.frame_set()));
                    let newf = self.page_table.frame_set().difference(pt_before.frame_set());
                    assert(area.frame_set().disjoint(self.page_table.frame_set()));
                    assert forall|i: int| 0 <= i < self.areas@.len() implies {
                        &&& (#[trigger] self.areas@[i]).frame_set().subset_of(alloc.outstanding())
                        &&& self.areas@[i].frame_set().disjoint(self.page_table.frame_set())
                        &&& self.areas@[i].frame_set().disjoint(area.frame_set())
                    } by {
                        assert(self.areas@[i].frame_set().subset_of(alloc_mid.outstanding()));
                        assert(self.areas@[i].frame_set().disjoint(pt_before.frame_set()));
                    };
                    assert(area.entry(v as int) == PageTableEntry { bits: pte_bits(target, area.map_perm.bits | 1u8) });
                    assert forall|u: u64| start <= u < v + 1 implies #[trigger] self.page_table@[u] == area.entry(u as int) by {
                        if u < v && area.map_type == MapType::Framed {
                            assert(area_before.data_frames@[u - start] == area.data_frames@[u - start]);
                        }
                    };
                }
                v = v + 1;
            }
        }
        let done = v == end;
        area.vpn_range = VPNRange::new(VirtPageNum(start), VirtPageNum(v));
        self.areas.push(area);
        proof {
            let n = old(self).areas@.len() as int;
            assert(self.areas@[n] == area);
            assert forall|i: int| 0 <= i < n implies #[trigger] self.areas@[i] == old(self).areas@[i] by {};
            if done {
                assert(self@ =~= old(self)@.push(area0@)) by {
                    assert(area@ == area0@);
                };
            }
            assert forall|vv: u64| #[trigger] self.page_table@.contains_key(vv) implies exists|i: int|
                0 <= i < self.areas@.len() && (#[trigger] self.areas@[i]).covers(vv as int) by {
                if old_pt.contains_key(vv) {
                    let i = choose|i: int| 0 <= i < old(self).areas@.len() && (#[trigger] old(self).areas@[i]).covers(vv as int);
                    assert(self.areas@[i] == old(self).areas@[i]);
                } else {
                    assert(self.areas@[n].covers(vv as int));
                }
            };
            assert forall|i: int, vv: u64|
                0 <= i < self.areas@.len() && (#[trigger] self.areas@[i]).covers(vv as int) implies {
                    &&& #[trigger] self.page_table@.contains_key(vv)
                    &&& self.page_table@[vv] == self.areas@[i].entry(vv as int)
                } by {
                if i < n {
                    assert(old(self).areas@[i].covers(vv as int));
                    assert(old_pt.contains_key(vv));
                }
            };
            assert forall|i: int, j: int|
                0 <= i < j < self.areas@.len() implies !ranges_meet(
                    (#[trigger] self.areas@[i]).start(),
                    self.areas@[i].end(),
                    (#[trigger] self.areas@[j]).start(),
                    self.areas@[j].end(),
                ) by {
                if j < n {
                    assert(self.areas@[i] == old(self).areas@[i]);
                    assert(self.areas@[j] == old(self).areas@[j]);
                } else {
                    assert(self.areas@[i] == old(self).areas@[i]);
                    assert(!ranges_meet(old(self).areas@[i].start(), old(self).areas@[i].end(), area.start(), area.end()));
                }
            };
            assert forall|i: int, j: int|
                0 <= i < self.areas@.len() && 0 <= j < self.areas@.len() && i != j implies (#[trigger] self.areas@[i]).frame_set().disjoint((#[trigger] self.areas@[j]).frame_set()) by {
                if i < n && j < n {
                    assert(self.areas@[i] == old(self).areas@[i]);
                    assert(self.areas@[j] == old(self).areas@[j]);
                    assert(old(self).areas@[i].frame_set().disjoint(old(self).areas@[j].frame_set()));
                } else if i < n {
                    assert(self.areas@[i] == old(self).areas@[i]);
                } else {
                    assert(self.areas@[j] == old(self).areas@[j]);
                }
            };
            assert forall|i: int| 0 <= i < self.areas@.len() implies (#[trigger] self.areas@[i]).wf() by {
                if i < n {
                    assert(self.areas@[i] == old(self).areas@[i]);
                }
            };
            assert forall|i: int| 0 <= i < self.areas@.len() implies (#[trigger] self.areas@[i]).frame_set().subset_of(alloc.outstanding())
                && self.areas@[i].frame_set().disjoint(self.page_table.frame_set()) by {
                if i < n {
                    assert(self.areas@[i] == old(self).areas@[i]);
                }
            };
            assert forall|vv: u64| done && #[trigger] area0.covers(vv as int) implies {
                &&& self.page_table@.contains_key(vv)
                &&& self.page_table@[vv].flags_spec() == area0.perm() | 1u8
                &&& area0.kind() != MapType::Framed ==> self.page_table@[vv].ppn_spec() == area0.target(vv as int)
            } by {
                let t = area.target(vv as int);
                assert(self.page_table@[vv] == area.entry(vv as int));
                assert(t < PPN_LIMIT) by {
                    if area.map_type == MapType::Framed {
                        assert(area.data_frames@[vv - start].ppn.0 < PPN_LIMIT);
                    }
                };
                crate::page_table::lemma_pte_fields(t, (area.map_perm.bits | 1u8));
            };
        }
        proof {
            let n = old(self).areas@.len() as int;
            let o_out = old(alloc).outstanding();
            let pt0 = old(self).page_table.frame_set();
            let o0 = old(self).owned_frames();
            let o1 = self.owned_frames();
            let gained = self.page_table.frame_set().difference(pt0).union(area.frame_set());
            assert(self.areas@[n] == area);
            assert forall|x: u64| o0.contains(x) implies o1.contains(x) && o_out.contains(x) by {
                if !pt0.contains(x) {
                    let j = choose|j: int| 0 <= j < old(self).areas@.len() && (#[trigger] old(self).areas@[j]).frame_set().contains(x);
                    assert(self.areas@[j] == old(self).areas@[j]);
                }
            };
            assert forall|x: u64| o1.contains(x) && !o0.contains(x) implies gained.contains(x) by {
                if !self.page_table.frame_set().contains(x) {
                    let j = choose|j: int| 0 <= j < self.areas@.len() && (#[trigger] self.areas@[j]).frame_set().contains(x);
                    if j < n {
                        assert(self.areas@[j] == old(self).areas@[j]);
                    }
                }
            };
            assert forall|x: u64| gained.contains(x) implies o1.contains(x) && !o0.contains(x) by {
                assert(!o_out.contains(x));
                if area.frame_set().contains(x) {
                    assert(self.areas@[n].frame_set().contains(x));
                }
            };
            assert(alloc.outstanding() =~= o_out.union(o1.difference(o0)));
            assert(o_out.disjoint(o1.difference(o0)));
            assert(o0.subset_of(o1));
        }
        done
    }
}

impl MemorySet {
    /// Whether the pages `[s, e)` meet a region.
    pub open spec fn conflicts(&self, s: int, e: int) -> bool {
        exists|i: int| 0 <= i < self@.len() && ranges_meet(s, e, (#[trigger] self@[i]).0, self@[i].1)
    }

    /// Unmaps every page of region `i`, returns its frames and drops it.
    #[verifier::rlimit(60)]
    #[verifier::spinoff_prover]
    fn remove_area_at(&mut self, i: usize, alloc: &mut StackFrameAllocator)
        requires
            old(self).wf(),
            old(alloc).wf(),
            old(self).owned_by(*old(alloc)),
            i < old(self).areas@.len(),
        ensures
            final(self).wf(),
            final(alloc).wf(),
            final(self).owned_by(*final(alloc)),
            final(alloc).pool_start() == old(alloc).pool_start(),
            final(alloc).pool_end() == old(alloc).pool_end(),
            final(self).root_spec() == old(self).root_spec(),
            final(self)@ == old(self)@.remove(i as int),
            forall|v: u64| #[trigger] final(self).mapping().contains_key(v) == (old(self).mapping().contains_key(v)
                && !(old(self)@[i as int].0 <= v < old(self)@[i as int].1)),
            forall|v: u64| #[trigger] final(self).mapping().contains_key(v) ==> final(self).mapping()[v] == old(self).mapping()[v],
            final(alloc).outstanding() == old(alloc).outstanding().difference(old(self).areas@[i as int].frame_set()),
            final(alloc).free_stack() == old(alloc).free_stack() + old(self).area_release_order(i as int),
            final(self).page_table.frame_set() == old(self).page_table.frame_set(),
            forall|v: u64| #[trigger] final(self).nodes_present(v) == old(self).nodes_present(v),
            final(self).areas@ == old(self).areas@.remove(i as int),
            final(alloc).free_count() == old(alloc).free_count() + (if old(self)@[i as int].2 == MapType::Framed {
                old(self)@[i as int].1 - old(self)@[i as int].0
            } else {
                0
            }),
    {
        let ghost old_pt = self.page_table@;
        let ghost old_areas = self.areas@;
        let area = self.areas.remove(i);
        let start = area.vpn_range.l.0;
        let end = area.vpn_range.r.0;
        proof {
            assert(old_areas[i as int] == area);
            assert(area.wf());
        }
        let mut v: u64 = start;
        while v < end
            invariant
                start <= v <= end,
                start == area.start(),
                end == area.end(),
                old_areas[i as int] == area,
                self.areas@ == old_areas.remove(i as int),
                self.page_table.wf(),
                self.page_table.frame_set() == old(self).page_table.frame_set(),
                self.page_table.root_spec() == old(self).page_table.root_spec(),
                forall|u: u64| #[trigger] self.page_table.missing_upper(u) == old(self).page_table.missing_upper(u),
                forall|u: u64| #[trigger] self.page_table.missing_lower(u) == old(self).page_table.missing_lower(u),
                forall|u: u64| #[trigger] self.page_table@.contains_key(u) == (old_pt.contains_key(u) && !(start <= u < v)),
                forall|u: u64| #[trigger] self.page_table@.contains_key(u) ==> self.page_table@[u] == old_pt[u],
                forall|u: u64| start <= u < end ==> #[trigger] old_pt.contains_key(u),
            decreases end - v,
        {
            self.page_table.unmap(VirtPageNum(v));
            v = v + 1;
        }
        let ghost fs = area.frame_set();
        proof {
            assert(fs.subset_of(alloc.outstanding()));
        }
        alloc.frame_dealloc_all(area.data_frames);
        proof {
            let n = self.areas@.len();
            assert forall|k: int| 0 <= k < n implies #[trigger] self.areas@[k] == old_areas[if k < i { k } else { k + 1 }] by {};
            assert(self@ =~= old(self)@.remove(i as int));
            assert forall|vv: u64| #[trigger] self.page_table@.contains_key(vv) implies exists|k: int|
                0 <= k < self.areas@.len() && (#[trigger] self.areas@[k]).covers(vv as int) by {
                let k = choose|k: int| 0 <= k < old_areas.len() && (#[trigger] old_areas[k]).covers(vv as int);
                if k == i {
                } else if k < i {
                    assert(self.areas@[k] == old_areas[k]);
                } else {
                    assert(self.areas@[k - 1] == old_areas[k]);
                }
            };
            assert forall|k: int, vv: u64|
                0 <= k < self.areas@.len() && (#[trigger] self.areas@[k]).covers(vv as int) implies {
                    &&& #[trigger] self.page_table@.contains_key(vv)
                    &&& self.page_table@[vv] == self.areas@[k].entry(vv as int)
                } by {
                let ok = if k < i { k } else { k + 1 };
                assert(self.areas@[k] == old_areas[ok]);
                assert(old_areas[ok].covers(vv as int));
                assert(old(self).areas@[ok] == old_areas[ok]);
                assert(old_pt.contains_key(vv));
                assert(old_pt[vv] == old_areas[ok].entry(vv as int));
                assert(!(start <= vv < end));
                assert(self.page_table@.contains_key(vv));
                assert(self.page_table@[vv] == old_pt[vv]);
                if i < ok {
                    assert(!ranges_meet(old_areas[i as int].start(), old_areas[i as int].end(), old_areas[ok].start(), old_areas[ok].end()));
                } else {
                    assert(!ranges_meet(old_areas[ok].start(), old_areas[ok].end(), old_areas[i as int].start(), old_areas[i as int].end()));
                }
            };
            assert forall|a: int, b: int|
                0 <= a < b < self.areas@.len() implies !ranges_meet(
                    (#[trigger] self.areas@[a]).start(),
                    self.areas@[a].end(),
                    (#[trigger] self.areas@[b]).start(),
                    self.areas@[b].end(),
                ) by {
                let oa = if a < i { a } else { a + 1 };
                let ob = if b < i { b } else { b + 1 };
                assert(self.areas@[a] == old_areas[oa]);
                assert(self.areas@[b] == old_areas[ob]);
            };
            assert forall|a: int, b: int|
                0 <= a < self.areas@.len() && 0 <= b < self.areas@.len() && a != b implies (#[trigger] self.areas@[a]).frame_set().disjoint((#[trigger] self.areas@[b]).frame_set()) by {
                let oa = if a < i { a } else { a + 1 };
                let ob = if b < i { b } else { b + 1 };
                assert(self.areas@[a] == old_areas[oa]);
                assert(self.areas@[b] == old_areas[ob]);
            };
            assert forall|a: int| 0 <= a < self.areas@.len() implies {
                &&& (#[trigger] self.areas@[a]).wf()
                &&& self.areas@[a].frame_set().disjoint(self.page_table.frame_set())
                &&& self.areas@[a].frame_set().subset_of(alloc.outstanding())
            } by {
                let oa = if a < i { a } else { a + 1 };
                assert(self.areas@[a] == old_areas[oa]);
                assert(old_areas[oa].frame_set().disjoint(old_areas[i as int].frame_set()));
            };
            assert(self.page_table.frame_set().subset_of(alloc.outstanding())) by {
                assert(old(self).page_table.frame_set().disjoint(fs));
            };
            assert(old(self)@[i as int] == area@);
            assert forall|vv: u64| #[trigger] self.page_table@.contains_key(vv) == (old(self).mapping().contains_key(vv)
                && !(old(self)@[i as int].0 <= vv < old(self)@[i as int].1)) by {};
        }
    }

    /// Removes the first region that starts at page `start_vpn`: its pages
    /// are unmapped and its frames returned. Fails, changing nothing, when
    /// no region starts there.
    pub fn remove_area_with_start_vpn(&mut self, start_vpn: VirtPageNum, alloc: &mut StackFrameAllocator) -> (r: bool)
        requires
            old(self).wf(),
            old(alloc).wf(),
            old(self).owned_by(*old(alloc)),
        ensures
            forall|v: u64| #[trigger] final(self).nodes_present(v) == old(self).nodes_present(v),
            final(self).wf(),
            final(alloc).wf(),
            final(self).owned_by(*final(alloc)),
            final(alloc).pool_start() == old(alloc).pool_start(),
            final(alloc).pool_end() == old(alloc).pool_end(),
            r == exists|i: int| 0 <= i < old(self)@.len() && (#[trigger] old(self)@[i]).0 == start_vpn.0,
            !r ==> *final(self) == *old(self) && *final(alloc) == *old(alloc),
            r ==> exists|i: int| {
                &&& 0 <= i < old(self)@.len()
                &&& (#[trigger] old(self)@[i]).0 == start_vpn.0
                &&& forall|k: int| 0 <= k < i ==> (#[trigger] old(self)@[k]).0 != start_vpn.0
                &&& final(self)@ == old(self)@.remove(i)
                &&& forall|v: u64| #[trigger] final(self).mapping().contains_key(v) == (old(self).mapping().contains_key(v)
                    && !(old(self)@[i].0 <= v < old(self)@[i].1))
                &&& final(alloc).free_count() == old(alloc).free_count() + (if old(self)@[i].2 == MapType::Framed {
                    old(self)@[i].1 - old(self)@[i].0
                } else {
                    0
                })
            },
            forall|v: u64| #[trigger] final(self).mapping().contains_key(v) ==> final(self).mapping()[v] == old(self).mapping()[v],
    {
        let mut i: usize = 0;
        while i < self.areas.len()
            invariant
                0 <= i <= self.areas@.len(),
                self.wf(),
                alloc.wf(),
                self.owned_by(*alloc),
                *self == *old(self),
                *alloc == *old(alloc),
                forall|k: int| 0 <= k < i ==> (#[trigger] self@[k]).0 != start_vpn.0,
            decreases self.areas.len() - i,
        {
            assert(self@[i as int] == self.areas@[i as int]@);
            if self.areas[i].vpn_range.get_start().0 == start_vpn.0 {
                self.remove_area_at(i, alloc);
                return true;
            }
            i = i + 1;
        }
        false
    }

    /// Removes the region whose pages are exactly `[start_vpn, end_vpn)`,
    /// with 0 as the result, or returns -1 and changes nothing when there is
    /// none.
    pub fn unmap_area_exact_range(
        &mut self,
        start_vpn: VirtPageNum,
        end_vpn: VirtPageNum,
        alloc: &mut StackFrameAllocator,
    ) -> (r: i64)
        requires
            old(self).wf(),
            old(alloc).wf(),
            old(self).owned_by(*old(alloc)),
        ensures
            forall|v: u64| #[trigger] final(self).nodes_present(v) == old(self).nodes_present(v),
            final(self).wf(),
            final(alloc).wf(),
            final(self).owned_by(*final(alloc)),
            final(alloc).pool_start() == old(alloc).pool_start(),
            final(alloc).pool_end() == old(alloc).pool_end(),
            r == 0 || r == -1,
            (r == 0) == exists|i: int|
                0 <= i < old(self)@.len() && (#[trigger] old(self)@[i]).0 == start_vpn.0 && old(self)@[i].1 == end_vpn.0,
            r == -1 ==> *final(self) == *old(self) && *final(alloc) == *old(alloc),
            r == 0 ==> exists|i: int| {
                &&& 0 <= i < old(self)@.len()
                &&& (#[trigger] old(self)@[i]).0 == start_vpn.0
                &&& old(self)@[i].1 == end_vpn.0
                &&& final(self)@ == old(self)@.remove(i)
                &&& forall|k: int| 0 <= k < i ==> !((#[trigger] old(self)@[k]).0 == start_vpn.0 && old(self)@[k].1 == end_vpn.0)
                &&& final(alloc).outstanding() == old(alloc).outstanding().difference(old(self).area_frames(i))
                &&& final(alloc).free_stack() == old(alloc).free_stack() + old(self).area_release_order(i)
                &&& final(alloc).free_count() == old(alloc).free_count() + (if old(self)@[i].2 == MapType::Framed {
                    end_vpn.0 - start_vpn.0
                } else {
                    0
                })
            },
            r == 0 ==> forall|v: u64| #[trigger] final(self).mapping().contains_key(v) == (old(self).mapping().contains_key(v)
                && !(start_vpn.0 <= v < end_vpn.0)),
            forall|v: u64| #[trigger] final(self).mapping().contains_key(v) ==> final(self).mapping()[v] == old(self).mapping()[v],
    {
        let mut i: usize = 0;
        while i < self.areas.len()
            invariant
                0 <= i <= self.areas@.len(),
                self.wf(),
                alloc.wf(),
                self.owned_by(*alloc),
                *self == *old(self),
                *alloc == *old(alloc),
                forall|k: int| 0 <= k < i ==> !((#[trigger] self@[k]).0 == start_vpn.0 && self@[k].1 == end_vpn.0),
            decreases self.areas.len() - i,
        {
            assert(self@[i as int] == self.areas@[i as int]@);
            if self.areas[i].vpn_range.get_start().0 == start_vpn.0 && self.areas[i].vpn_range.get_end().0 == end_vpn.0 {
                self.remove_area_at(i, alloc);
                return 0;
            }
            i = i + 1;
        }
        -1
    }

    /// Adds a framed region over `[floor(start_va), ceil(end_va))` with
    /// permissions `perm`, taking a fresh frame for each page. Fails,
    /// changing nothing, when that page range is reversed or reaches past the
    /// virtual address space, when it meets a region, or when the pool holds
    /// fewer frames than the pages plus the page-table nodes that mapping
    /// them needs ([`MemorySet::frames_needed`]).
    #[verifier::spinoff_prover]
    pub fn insert_framed_area(
        &mut self,
        start_va: VirtAddr,
        end_va: VirtAddr,
        perm: MapPermission,
        alloc: &mut StackFrameAllocator,
    ) -> (r: bool)
        requires
            old(self).wf(),
            old(alloc).wf(),
            old(self).owned_by(*old(alloc)),
        ensures
            final(self).wf(),
            final(alloc).wf(),
            final(self).owned_by(*final(alloc)),
            final(alloc).pool_start() == old(alloc).pool_start(),
            final(alloc).pool_end() == old(alloc).pool_end(),
            r == (floor_of(start_va.0) <= ceil_of(end_va.0) && end_va.0 <= VA_LIMIT && !old(self).conflicts(
                floor_of(start_va.0),
                ceil_of(end_va.0),
            ) && old(alloc).free_count() >= (ceil_of(end_va.0) - floor_of(start_va.0)) + old(self).frames_needed(
                floor_of(start_va.0) as u64,
                ceil_of(end_va.0) as u64,
            )),
            !r ==> *final(self) == *old(self) && *final(alloc) == *old(alloc),
            r ==> final(self)@ == old(self)@.push(
                (floor_of(start_va.0), ceil_of(end_va.0), MapType::Framed, perm.bits),
            ),
            r ==> final(alloc).free_count() + (ceil_of(end_va.0) - floor_of(start_va.0)) + old(self).frames_needed(
                floor_of(start_va.0) as u64,
                ceil_of(end_va.0) as u64,
            ) >= old(alloc).free_count(),
            takes_frames(old(alloc).outstanding(), final(alloc).outstanding(), old(self).owned_frames(), final(self).owned_frames()),
            r ==> forall|v: u64| floor_of(start_va.0) <= v < ceil_of(end_va.0) ==> #[trigger] final(self).nodes_present(v),
            forall|v: u64| #[trigger] old(self).nodes_present(v) ==> final(self).nodes_present(v),
            r ==> forall|v: u64| #![trigger final(self).mapping().contains_key(v)]
                floor_of(start_va.0) <= v < ceil_of(end_va.0) ==> {
                &&& final(self).mapping().contains_key(v)
                &&& final(self).mapping()[v].flags_spec() == perm.bits | 1u8
                &&& final(alloc).outstanding().contains(final(self).mapping()[v].ppn_spec())
                &&& !old(alloc).outstanding().contains(final(self).mapping()[v].ppn_spec())
            },
            r ==> forall|v1: u64, v2: u64|
                floor_of(start_va.0) <= v1 < ceil_of(end_va.0) && floor_of(start_va.0) <= v2 < ceil_of(end_va.0) && v1 != v2
                ==> #[trigger] final(self).mapping()[v1].ppn_spec() != #[trigger] final(self).mapping()[v2].ppn_spec(),
            r ==> forall|v: u64| !(floor_of(start_va.0) <= v < ceil_of(end_va.0)) ==> {
                &&& #[trigger] final(self).mapping().contains_key(v) == old(self).mapping().contains_key(v)
                &&& old(self).mapping().contains_key(v) ==> final(self).mapping()[v] == old(self).mapping()[v]
            },
    {
        let s = start_va.floor().0;
        let e = end_va.ceil().0;
        if s > e || end_va.0 > VA_LIMIT {
            proof {
                lemma_takes_nothing(alloc.outstanding(), self.owned_frames());
            }
            return false;
        }
        if self.has_conflict_with_range(start_va, end_va) {
            proof {
                lemma_takes_nothing(alloc.outstanding(), self.owned_frames());
            }
            return false;
        }
        let need = self.page_table.nodes_needed_count(VirtPageNum(s), VirtPageNum(e));
        proof {
            self.page_table.lemma_nodes_needed_bound(s, e);
            assert(need <= 0x1000_0000);
        }
        if alloc.free_frames() < (e - s) + need {
            proof {
                lemma_takes_nothing(alloc.outstanding(), self.owned_frames());
            }
            return false;
        }
        let area = MapArea::new(start_va, end_va, MapType::Framed, perm);
        proof {
            assert forall|i: int| 0 <= i < self.areas@.len() implies !ranges_meet(
                (#[trigger] self.areas@[i]).start(),
                self.areas@[i].end(),
                area.start(),
                area.end(),
            ) by {
                assert(self@[i] == self.areas@[i]@);
                assert(!ranges_meet(floor_of(start_va.0), ceil_of(end_va.0), self@[i].0, self@[i].1));
            };
        }
        let done = self.push_area(area, alloc);
        proof {
            assert forall|v: u64| #![trigger self.mapping().contains_key(v)]
                floor_of(start_va.0) <= v < ceil_of(end_va.0) implies {
                &&& self.mapping().contains_key(v)
                &&& self.mapping()[v].flags_spec() == perm.bits | 1u8
                &&& alloc.outstanding().contains(self.mapping()[v].ppn_spec())
                &&& !old(alloc).outstanding().contains(self.mapping()[v].ppn_spec())
            } by {
                assert(area.covers(v as int));
                assert(area.kind() == MapType::Framed);
            };
            assert forall|v1: u64, v2: u64|
                floor_of(start_va.0) <= v1 < ceil_of(end_va.0) && floor_of(start_va.0) <= v2 < ceil_of(end_va.0) && v1 != v2
                implies #[trigger] self.mapping()[v1].ppn_spec() != #[trigger] self.mapping()[v2].ppn_spec() by {
                assert(area.covers(v1 as int) && area.covers(v2 as int));
                assert(area.kind() == MapType::Framed);
            };
            assert forall|v: u64| floor_of(start_va.0) <= v < ceil_of(end_va.0) implies #[trigger] self.nodes_present(v) by {
                assert(area.covers(v as int));
            };
        }
        true
    }
}

/// The virtual page of the trap trampoline: the last page of the address
/// space, mapped in every space.
pub const TRAMPOLINE_VPN: u64 = 0x7ff_ffff;

/// Where the kernel image and physical memory lie. All of them are physical
/// addresses at page boundaries.
#[derive(Clone, Copy, Debug, PartialEq, Eq, Structural)]
pub struct KernelLayout {
    pub stext: u64,
    pub etext: u64,
    pub srodata: u64,
    pub erodata: u64,
    pub sdata: u64,
    pub edata: u64,
    pub sbss: u64,
    pub ebss: u64,
    pub ekernel: u64,
    pub memory_end: u64,
    pub strampoline: u64,
}

/// The sections lie in this order at page boundaries, below the trampoline's
/// page, and the trampoline code lies in the text section.
pub open spec fn layout_ok(l: KernelLayout) -> bool {
    &&& l.stext <= l.etext <= l.srodata <= l.erodata <= l.sdata <= l.edata <= l.sbss <= l.ebss
        <= l.ekernel <= l.memory_end <= TRAMPOLINE_VPN * 4096
    &&& l.stext % 4096 == 0 && l.etext % 4096 == 0 && l.srodata % 4096 == 0
    &&& l.erodata % 4096 == 0 && l.sdata % 4096 == 0 && l.edata % 4096 == 0
    &&& l.sbss % 4096 == 0 && l.ebss % 4096 == 0 && l.ekernel % 4096 == 0
    &&& l.memory_end % 4096 == 0 && l.strampoline % 4096 == 0
    &&& l.stext <= l.strampoline < l.etext
}

/// Whether `l` meets [`layout_ok`].
pub fn layout_valid(l: &KernelLayout) -> (r: bool)
    ensures
        r == layout_ok(*l),
{
    l.stext <= l.etext && l.etext <= l.srodata && l.srodata <= l.erodata && l.erodata <= l.sdata
        && l.sdata <= l.edata && l.edata <= l.sbss && l.sbss <= l.ebss && l.ebss <= l.ekernel
        && l.ekernel <= l.memory_end && l.memory_end <= TRAMPOLINE_VPN * 4096
        && l.stext % 4096 == 0 && l.etext % 4096 == 0 && l.srodata % 4096 == 0
        && l.erodata % 4096 == 0 && l.sdata % 4096 == 0 && l.edata % 4096 == 0
        && l.sbss % 4096 == 0 && l.ebss % 4096 == 0 && l.ekernel % 4096 == 0
        && l.memory_end % 4096 == 0 && l.strampoline % 4096 == 0
        && l.stext <= l.strampoline && l.strampoline < l.etext
}

/// The regions of kernel space: its sections and the rest of physical
/// memory mapped identically, and the trampoline.
pub open spec fn kernel_areas(l: KernelLayout) -> Seq<(int, int, MapType, u8)> {
    seq![
        ((l.stext / 4096) as int, (l.etext / 4096) as int, MapType::Identical, 10u8),
        ((l.srodata / 4096) as int, (l.erodata / 4096) as int, MapType::Identical, 2u8),
        ((l.sdata / 4096) as int, (l.edata / 4096) as int, MapType::Identical, 6u8),
        ((l.sbss / 4096) as int, (l.ebss / 4096) as int, MapType::Identical, 6u8),
        ((l.ekernel / 4096) as int, (l.memory_end / 4096) as int, MapType::Identical, 6u8),
        (TRAMPOLINE_VPN as int, TRAMPOLINE_VPN + 1int, MapType::Linear((TRAMPOLINE_VPN - l.strampoline / 4096) as u64), 10u8),
    ]
}

/// Frames that kernel space's page table can need: the root, and one node
/// per index of each level that a region's pages cross.
pub open spec fn kernel_frames(l: KernelLayout) -> int {
    1 + span_nodes(l.stext / 4096, l.etext / 4096) + span_nodes(l.srodata / 4096, l.erodata / 4096)
        + span_nodes(l.sdata / 4096, l.edata / 4096) + span_nodes(l.sbss / 4096, l.ebss / 4096)
        + span_nodes(l.ekernel / 4096, l.memory_end / 4096) + 2
}

/// The pages of the first `n` regions of kernel space map to themselves,
/// valid and with their region's permissions.
pub open spec fn identical_upto(m: Map<u64, PageTableEntry>, l: KernelLayout, n: int) -> bool {
    forall|k: int, v: u64|
        0 <= k < n && (#[trigger] kernel_areas(l)[k]).0 <= v < kernel_areas(l)[k].1 ==> {
            &&& #[trigger] m.contains_key(v)
            &&& m[v].ppn_spec() == v
            &&& m[v].flags_spec() == kernel_areas(l)[k].3 | 1u8
        }
}

/// Pushing kernel region `n` over `[start, end)` keeps the first `n`
/// regions' pages mapped to themselves and adds its own.
proof fn lemma_identical_step(
    before: Map<u64, PageTableEntry>,
    after: Map<u64, PageTableEntry>,
    l: KernelLayout,
    n: int,
    start: u64,
    end: u64,
)
    requires
        0 <= n < 5,
        identical_upto(before, l, n),
        kernel_areas(l)[n].0 == start / 4096,
        kernel_areas(l)[n].1 == end / 4096,
        forall|k: int| 0 <= k < n ==> (#[trigger] kernel_areas(l)[k]).1 <= start / 4096,
        forall|v: u64| !(start / 4096 <= v < end / 4096) ==> {
            &&& #[trigger] after.contains_key(v) == before.contains_key(v)
            &&& before.contains_key(v) ==> after[v] == before[v]
        },
        forall|v: u64| start / 4096 <= v < end / 4096 ==> {
            &&& #[trigger] after.contains_key(v)
            &&& after[v].ppn_spec() == v
            &&& after[v].flags_spec() == kernel_areas(l)[n].3 | 1u8
        },
    ensures
        identical_upto(after, l, n + 1),
{
    assert forall|k: int, v: u64|
        0 <= k < n + 1 && (#[trigger] kernel_areas(l)[k]).0 <= v < kernel_areas(l)[k].1 implies {
            &&& #[trigger] after.contains_key(v)
            &&& after[v].ppn_spec() == v
            &&& after[v].flags_spec() == kernel_areas(l)[k].3 | 1u8
        } by {
        if k < n {
            assert(v < start / 4096);
            assert(before.contains_key(v));
            assert(after.contains_key(v));
        } else {
            assert(after.contains_key(v));
        }
    };
}

impl MemorySet {
    /// Adds an identically mapped region over `[start, end)`.
    #[verifier::spinoff_prover]
    fn push_identical(&mut self, start: u64, end: u64, perm: u8, alloc: &mut StackFrameAllocator) -> (r: bool)
        requires
            old(self).wf(),
            old(alloc).wf(),
            old(self).owned_by(*old(alloc)),
            start <= end <= TRAMPOLINE_VPN * 4096,
            start % 4096 == 0,
            end % 4096 == 0,
            !old(self).conflicts((start / 4096) as int, (end / 4096) as int),
        ensures
            old(alloc).free_count() >= span_nodes(start / 4096, end / 4096) ==> r,
            r ==> final(alloc).free_count() + span_nodes(start / 4096, end / 4096) >= old(alloc).free_count(),
            takes_frames(old(alloc).outstanding(), final(alloc).outstanding(), old(self).owned_frames(), final(self).owned_frames()),
            final(self).wf(),
            final(alloc).wf(),
            final(self).owned_by(*final(alloc)),
            final(alloc).pool_start() == old(alloc).pool_start(),
            final(alloc).pool_end() == old(alloc).pool_end(),
            r ==> final(self)@ == old(self)@.push(((start / 4096) as int, (end / 4096) as int, MapType::Identical, perm)),
            r ==> forall|v: u64| !(start / 4096 <= v < end / 4096) ==> {
                &&& #[trigger] final(self).mapping().contains_key(v) == old(self).mapping().contains_key(v)
                &&& old(self).mapping().contains_key(v) ==> final(self).mapping()[v] == old(self).mapping()[v]
            },
            r ==> forall|v: u64| start / 4096 <= v < end / 4096 ==> {
                &&& #[trigger] final(self).mapping().contains_key(v)
                &&& final(self).mapping()[v].ppn_spec() == v
                &&& final(self).mapping()[v].flags_spec() == perm | 1u8
            },
    {
        let area = MapArea::new(VirtAddr(start), VirtAddr(end), MapType::Identical, MapPermission { bits: perm });
        proof {
            assert forall|i: int| 0 <= i < self.areas@.len() implies !ranges_meet(
                (#[trigger] self.areas@[i]).start(),
                self.areas@[i].end(),
                area.start(),
                area.end(),
            ) by {
                assert(self@[i] == self.areas@[i]@);
                assert(!ranges_meet((start / 4096) as int, (end / 4096) as int, self@[i].0, self@[i].1));
            };
        }
        proof {
            self.page_table.lemma_nodes_needed_bound(area.start() as u64, area.end() as u64);
            assert(area.data_pages() == 0);
        }
        let r = self.push_area(area, alloc);
        proof {
            assert forall|v: u64| start / 4096 <= v < end / 4096 && r implies {
                &&& #[trigger] self.mapping().contains_key(v)
                &&& self.mapping()[v].ppn_spec() == v
                &&& self.mapping()[v].flags_spec() == perm | 1u8
            } by {
                assert(area.covers(v as int));
            };
        }
        r
    }

    /// Kernel space: text (R, X), read-only data (R), data and bss (R, W) and
    /// the rest of physical memory (R, W), each mapped to itself, and the
    /// trampoline page (R, X). `None` when the pool runs out of frames.
    #[verifier::rlimit(100)]
    #[verifier::spinoff_prover]
    pub fn new_kernel(layout: KernelLayout, alloc: &mut StackFrameAllocator) -> (r: Option<MemorySet>)
        requires
            old(alloc).wf(),
            layout_ok(layout),
        ensures
            old(alloc).free_count() >= kernel_frames(layout) ==> r is Some,
            final(alloc).wf(),
            final(alloc).pool_start() == old(alloc).pool_start(),
            final(alloc).pool_end() == old(alloc).pool_end(),
            match r {
                Some(ms) => {
                    &&& ms.wf()
                    &&& ms.owned_by(*final(alloc))
                    &&& ms@ == kernel_areas(layout)
                    &&& identical_upto(ms.mapping(), layout, 5)
                    &&& ms.mapping().contains_key(TRAMPOLINE_VPN)
                    &&& ms.mapping()[TRAMPOLINE_VPN].ppn_spec() == layout.strampoline / 4096
                    &&& ms.mapping()[TRAMPOLINE_VPN].flags_spec() == 11u8
                    &&& final(alloc).outstanding() == old(alloc).outstanding().union(ms.owned_frames())
                },
                None => final(alloc).outstanding() == old(alloc).outstanding(),
            },
    {
        let mut ms = match MemorySet::new_bare(alloc) {
            Some(ms) => ms,
            None => return None,
        };
        let ghost a0 = old(alloc).outstanding();
        let l = layout;
        let ghost before = ms.mapping();
        let ghost out0 = alloc.outstanding();
        let ghost own0 = ms.owned_frames();
        let ghost view0 = ms@;
        let pushed = ms.push_identical(l.stext, l.etext, 10u8, alloc);
        proof {
            lemma_takes_frames_compose(a0, out0, alloc.outstanding(), own0, ms.owned_frames());
        }
        if !pushed {
            ms.release(alloc);
            return None;
        }
        assert(ms@ == view0.push(kernel_areas(layout)[0]));
        assert(ms@ =~= kernel_areas(layout).take(1));
        proof {
            assert forall|k: int| 0 <= k < 0 implies (#[trigger] kernel_areas(layout)[k]).1 <= (l.stext / 4096) as int by {};
            assert(kernel_areas(layout)[0].3 == 10u8);
            assert forall|v: u64| l.stext / 4096 <= v < l.etext / 4096 implies {
                &&& #[trigger] ms.mapping().contains_key(v)
                &&& ms.mapping()[v].ppn_spec() == v
                &&& ms.mapping()[v].flags_spec() == kernel_areas(layout)[0].3 | 1u8
            } by {
                assert(ms.mapping().contains_key(v));
            };
            lemma_identical_step(before, ms.mapping(), layout, 0, l.stext, l.etext);
        }
        assert(!ms.conflicts((l.srodata / 4096) as int, (l.erodata / 4096) as int)) by {
            assert forall|i: int| 0 <= i < ms@.len() implies ms@[i].1 <= (l.srodata / 4096) as int by {
                assert(ms@[i] == kernel_areas(layout)[i]);
            };
        };
        let ghost before = ms.mapping();
        let ghost out0 = alloc.outstanding();
        let ghost own0 = ms.owned_frames();
        let ghost view0 = ms@;
        let pushed = ms.push_identical(l.srodata, l.erodata, 2u8, alloc);
        proof {
            lemma_takes_frames_compose(a0, out0, alloc.outstanding(), own0, ms.owned_frames());
        }
        if !pushed {
            ms.release(alloc);
            return None;
        }
        assert(ms@ == view0.push(kernel_areas(layout)[1]));
        assert(ms@ =~= kernel_areas(layout).take(2));
        proof {
            assert forall|k: int| 0 <= k < 1 implies (#[trigger] kernel_areas(layout)[k]).1 <= (l.srodata / 4096) as int by {};
            assert(kernel_areas(layout)[1].3 == 2u8);
            assert forall|v: u64| l.srodata / 4096 <= v < l.erodata / 4096 implies {
                &&& #[trigger] ms.mapping().contains_key(v)
                &&& ms.mapping()[v].ppn_spec() == v
                &&& ms.mapping()[v].flags_spec() == kernel_areas(layout)[1].3 | 1u8
            } by {
                assert(ms.mapping().contains_key(v));
            };
            lemma_identical_step(before, ms.mapping(), layout, 1, l.srodata, l.erodata);
        }
        assert(!ms.conflicts((l.sdata / 4096) as int, (l.edata / 4096) as int)) by {
            assert forall|i: int| 0 <= i < ms@.len() implies ms@[i].1 <= (l.sdata / 4096) as int by {
                assert(ms@[i] == kernel_areas(layout)[i]);
            };
        };
        let ghost before = ms.mapping();
        let ghost out0 = alloc.outstanding();
        let ghost own0 = ms.owned_frames();
        let ghost view0 = ms@;
        let pushed = ms.push_identical(l.sdata, l.edata, 6u8, alloc);
        proof {
            lemma_takes_frames_compose(a0, out0, alloc.outstanding(), own0, ms.owned_frames());
        }
        if !pushed {
            ms.release(alloc);
            return None;
        }
        assert(ms@ == view0.push(kernel_areas(layout)[2]));
        assert(ms@ =~= kernel_areas(layout).take(3));
        proof {
            assert forall|k: int| 0 <= k < 2 implies (#[trigger] kernel_areas(layout)[k]).1 <= (l.sdata / 4096) as int by {};
            assert(kernel_areas(layout)[2].3 == 6u8);
            assert forall|v: u64| l.sdata / 4096 <= v < l.edata / 4096 implies {
                &&& #[trigger] ms.mapping().contains_key(v)
                &&& ms.mapping()[v].ppn_spec() == v
                &&& ms.mapping()[v].flags_spec() == kernel_areas(layout)[2].3 | 1u8
            } by {
                assert(ms.mapping().contains_key(v));
            };
            lemma_identical_step(before, ms.mapping(), layout, 2, l.sdata, l.edata);
        }
        assert(!ms.conflicts((l.sbss / 4096) as int, (l.ebss / 4096) as int)) by {
            assert forall|i: int| 0 <= i < ms@.len() implies ms@[i].1 <= (l.sbss / 4096) as int by {
                assert(ms@[i] == kernel_areas(layout)[i]);
            };
        };
        let ghost before = ms.mapping();
        let ghost out0 = alloc.outstanding();
        let ghost own0 = ms.owned_frames();
        let ghost view0 = ms@;
        let pushed = ms.push_identical(l.sbss, l.ebss, 6u8, alloc);
        proof {
            lemma_takes_frames_compose(a0, out0, alloc.outstanding(), own0, ms.owned_frames());
        }
        if !pushed {
            ms.release(alloc);
            return None;
        }
        assert(ms@ == view0.push(kernel_areas(layout)[3]));
        assert(ms@ =~= kernel_areas(layout).take(4));
        proof {
            assert forall|k: int| 0 <= k < 3 implies (#[trigger] kernel_areas(layout)[k]).1 <= (l.sbss / 4096) as int by {};
            assert(kernel_areas(layout)[3].3 == 6u8);
            assert forall|v: u64| l.sbss / 4096 <= v < l.ebss / 4096 implies {
                &&& #[trigger] ms.mapping().contains_key(v)
                &&& ms.mapping()[v].ppn_spec() == v
                &&& ms.mapping()[v].flags_spec() == kernel_areas(layout)[3].3 | 1u8
            } by {
                assert(ms.mapping().contains_key(v));
            };
            lemma_identical_step(before, ms.mapping(), layout, 3, l.sbss, l.ebss);
        }
        assert(!ms.conflicts((l.ekernel / 4096) as int, (l.memory_end / 4096) as int)) by {
            assert forall|i: int| 0 <= i < ms@.len() implies ms@[i].1 <= (l.ekernel / 4096) as int by {
                assert(ms@[i] == kernel_areas(layout)[i]);
            };
        };
        let ghost before = ms.mapping();
        let ghost out0 = alloc.outstanding();
        let ghost own0 = ms.owned_frames();
        let ghost view0 = ms@;
        let pushed = ms.push_identical(l.ekernel, l.memory_end, 6u8, alloc);
        proof {
            lemma_takes_frames_compose(a0, out0, alloc.outstanding(), own0, ms.owned_frames());
        }
        if !pushed {
            ms.release(alloc);
            return None;
        }
        assert(ms@ == view0.push(kernel_areas(layout)[4]));
        assert(ms@ =~= kernel_areas(layout).take(5));
        proof {
            assert forall|k: int| 0 <= k < 4 implies (#[trigger] kernel_areas(layout)[k]).1 <= (l.ekernel / 4096) as int by {};
            assert(kernel_areas(layout)[4].3 == 6u8);
            assert forall|v: u64| l.ekernel / 4096 <= v < l.memory_end / 4096 implies {
                &&& #[trigger] ms.mapping().contains_key(v)
                &&& ms.mapping()[v].ppn_spec() == v
                &&& ms.mapping()[v].flags_spec() == kernel_areas(layout)[4].3 | 1u8
            } by {
                assert(ms.mapping().contains_key(v));
            };
            lemma_identical_step(before, ms.mapping(), layout, 4, l.ekernel, l.memory_end);
        }
        let offset = TRAMPOLINE_VPN - l.strampoline / 4096;
        let tramp = MapArea::new(
            VirtAddr(TRAMPOLINE_VPN * 4096),
            VirtAddr(TRAMPOLINE_VPN * 4096 + 4096),
            MapType::Linear(offset),
            MapPermission { bits: 10u8 },
        );
        proof {
            assert forall|i: int| 0 <= i < ms.areas@.len() implies !ranges_meet(
                (#[trigger] ms.areas@[i]).start(),
                ms.areas@[i].end(),
                tramp.start(),
                tramp.end(),
            ) by {
                assert(ms@[i] == ms.areas@[i]@);
                assert(ms@[i] == kernel_areas(layout)[i]);
            };
        }
        let ghost before = ms.mapping();
        let ghost out0 = alloc.outstanding();
        let ghost own0 = ms.owned_frames();
        proof {
            ms.page_table.lemma_nodes_needed_bound(tramp.start() as u64, tramp.end() as u64);
            assert(tramp.data_pages() == 0);
            assert(span_nodes(tramp.start() as u64, tramp.end() as u64) == 2);
        }
        let pushed = ms.push_area(tramp, alloc);
        proof {
            lemma_takes_frames_compose(a0, out0, alloc.outstanding(), own0, ms.owned_frames());
        }
        if !pushed {
            ms.release(alloc);
            return None;
        }
        proof {
            assert(ms@ =~= kernel_areas(layout));
            assert(tramp.covers(TRAMPOLINE_VPN as int));
            assert(tramp.target(TRAMPOLINE_VPN as int) == (l.strampoline / 4096) as u64);
            assert(10u8 | 1u8 == 11u8) by (bit_vector);
            assert(tramp.perm() == 10u8);
            assert forall|i: int, v: u64| 0 <= i < 5 && (#[trigger] kernel_areas(layout)[i]).0 <= v < kernel_areas(layout)[i].1 implies {
                &&& #[trigger] ms.mapping().contains_key(v)
                &&& ms.mapping()[v].ppn_spec() == v
                &&& ms.mapping()[v].flags_spec() == kernel_areas(layout)[i].3 | 1u8
            } by {
                assert(!tramp.covers(v as int));
                assert(before.contains_key(v));
                assert(ms.mapping().contains_key(v));
                assert(ms.mapping()[v] == before[v]);
            };
        }
        Some(ms)
    }
}

/// Page `p` lies in `[s, e)`.
pub open spec fn page_in(p: int, s: int, e: int) -> bool {
    s <= p < e
}

/// Two page ranges meet exactly when some page lies in both; ranges that
/// only touch end to start do not meet.
pub proof fn lemma_ranges_meet_iff_shared_page(s1: int, e1: int, s2: int, e2: int)
    ensures
        ranges_meet(s1, e1, s2, e2) <==> exists|p: int| #[trigger] page_in(p, s1, e1) && page_in(p, s2, e2),
        !ranges_meet(s1, e1, e1, e2),
        !ranges_meet(s2, s1, s1, e1),
{
    if ranges_meet(s1, e1, s2, e2) {
        let p = if s1 < s2 { s2 } else { s1 };
        assert(page_in(p, s1, e1) && page_in(p, s2, e2));
    }
}

/// Two addresses with in-page offsets are equal only when page and offset are.
proof fn lemma_page_offset_unique(p1: int, o1: int, p2: int, o2: int)
    requires
        0 <= o1 < 4096,
        0 <= o2 < 4096,
        p1 * 4096 + o1 == p2 * 4096 + o2,
    ensures
        p1 == p2,
        o1 == o2,
{
    assert(p1 == p2) by (nonlinear_arith)
        requires 0 <= o1 < 4096, 0 <= o2 < 4096, p1 * 4096 + o1 == p2 * 4096 + o2;
}

impl MemorySet {
    /// Distinct pages of framed regions map to distinct frames.
    proof fn lemma_framed_injective(&self, i1: int, i2: int, v1: u64, v2: u64)
        requires
            self.wf(),
            0 <= i1 < self.areas@.len(),
            0 <= i2 < self.areas@.len(),
            self.areas@[i1].map_type == MapType::Framed,
            self.areas@[i2].map_type == MapType::Framed,
            self.areas@[i1].covers(v1 as int),
            self.areas@[i2].covers(v2 as int),
            v1 != v2,
        ensures
            self.mapping().contains_key(v1),
            self.mapping().contains_key(v2),
            self.mapping()[v1].ppn_spec() != self.mapping()[v2].ppn_spec(),
    {
        let a1 = self.areas@[i1];
        let a2 = self.areas@[i2];
        assert(self.page_table@.contains_key(v1) && self.page_table@[v1] == a1.entry(v1 as int));
        assert(self.page_table@.contains_key(v2) && self.page_table@[v2] == a2.entry(v2 as int));
        let k1 = v1 - a1.start();
        let k2 = v2 - a2.start();
        assert(a1.wf() && a2.wf());
        let p1 = a1.data_frames@[k1].ppn.0;
        let p2 = a2.data_frames@[k2].ppn.0;
        assert(p1 < PPN_LIMIT && p2 < PPN_LIMIT);
        lemma_pte_fields(p1, a1.map_perm.bits | 1u8);
        lemma_pte_fields(p2, a2.map_perm.bits | 1u8);
        if i1 == i2 {
            if k1 < k2 {
                assert(a1.data_frames@[k1].ppn.0 != a1.data_frames@[k2].ppn.0);
            } else {
                assert(a1.data_frames@[k2].ppn.0 != a1.data_frames@[k1].ppn.0);
            }
        } else {
            assert(a1.frame_set().contains(p1));
            assert(a2.frame_set().contains(p2));
            assert(a1.frame_set().disjoint(a2.frame_set()));
        }
    }

    /// Byte address `v` lies in a page of a framed region other than `i`.
    pub closed spec fn framed_elsewhere(&self, i: int, v: int) -> bool {
        0 <= v <= u64::MAX && exists|i2: int|
            0 <= i2 < self.areas@.len() && i2 != i && (#[trigger] self.areas@[i2]).map_type == MapType::Framed
                && self.areas@[i2].covers(floor_of(v as u64))
    }

    /// Region `i` is framed and holds the pages of `[start_va, start_va + len)`.
    closed spec fn framed_holds(&self, i: int, start_va: int, len: int) -> bool {
        &&& 0 <= i < self.areas@.len()
        &&& self.areas@[i].map_type == MapType::Framed
        &&& len > 0 ==> self.areas@[i].start() * 4096 <= start_va && start_va + len <= self.areas@[i].end() * 4096
    }

    /// Copies `data` into this space from `start_va` on, page by page
    /// through the page table. `false` when a byte's frame lies outside
    /// `mem`; the bytes before it have then been written.
    #[verifier::spinoff_prover]
    fn copy_data(&self, mem: &mut PhysMemory, start_va: VirtAddr, data: &Vec<u8>, i: usize) -> (r: bool)
        requires
            self.wf(),
            old(mem).wf(),
            self.framed_holds(i as int, start_va.0 as int, data@.len() as int),
        ensures
            final(mem).wf(),
            final(mem).base() == old(mem).base(),
            final(mem)@.len() == old(mem)@.len(),
            r == forall|j: int| 0 <= j < data@.len() ==> #[trigger] user_byte(self.mapping(), *old(mem), start_va.0 + j) is Some,
            r ==> forall|j: int| 0 <= j < data@.len() ==> user_byte(self.mapping(), *final(mem), start_va.0 + j) == Some(#[trigger] data@[j]),
            forall|v: int| #[trigger] self.framed_elsewhere(i as int, v) ==> user_byte(self.mapping(), *final(mem), v) == user_byte(self.mapping(), *old(mem), v),
            (forall|p: u64| #[trigger] self.areas@[i as int].frame_set().contains(p) ==> old(mem).base() <= p * 4096
                && p * 4096 + 4096 <= old(mem).base() + old(mem)@.len()) ==> r,
    {
        let ghost a = self.areas@[i as int];
        let mut j: usize = 0;
        while j < data.len()
            invariant
                self.wf(),
                mem.wf(),
                mem.base() == old(mem).base(),
                mem@.len() == old(mem)@.len(),
                self.framed_holds(i as int, start_va.0 as int, data@.len() as int),
                a == self.areas@[i as int],
                j <= data@.len(),
                forall|k: int| 0 <= k < j ==> #[trigger] user_byte(self.mapping(), *old(mem), start_va.0 + k) is Some,
                forall|k: int| 0 <= k < j ==> user_byte(self.mapping(), *mem, start_va.0 + k) == Some(#[trigger] data@[k]),
                forall|v: int| #[trigger] self.framed_elsewhere(i as int, v) ==> user_byte(self.mapping(), *mem, v) == user_byte(self.mapping(), *old(mem), v),
            decreases data.len() - j,
        {
            let va = start_va.0 + j as u64;
            proof {
                assert(a.covers(floor_of(va) as int));
                assert(self.page_table@.contains_key(floor_of(va) as u64));
            }
            let pa = self.page_table.translate_va(VirtAddr(va)).unwrap();
            proof {
                let pv = floor_of(va) as u64;
                let fr = a.data_frames@[pv - a.start()].ppn.0;
                assert(a.wf());
                assert(fr < PPN_LIMIT);
                assert(self.page_table@[pv] == a.entry(pv as int));
                lemma_pte_fields(fr, a.map_perm.bits | 1u8);
                assert(pa.0 == fr * 4096 + va % 4096);
                assert(a.frame_set().contains(fr));
            }
            let ghost before = *mem;
            if !mem.write_byte(pa, data[j]) {
                proof {
                    assert(user_byte(self.mapping(), *old(mem), start_va.0 + j) is None);
                }
                return false;
            }
            proof {
                assert forall|k: int| 0 <= k < j + 1 implies user_byte(self.mapping(), *mem, start_va.0 + k) == Some(#[trigger] data@[k]) by {
                    if k < j {
                        let vk = (start_va.0 + k) as u64;
                        assert(a.covers(floor_of(vk) as int));
                        let pk = phys_of(self.mapping(), vk as int)->0;
                        if floor_of(vk) != floor_of(va) {
                            self.lemma_framed_injective(i as int, i as int, floor_of(vk) as u64, floor_of(va) as u64);
                            if pk == pa.0 {
                                lemma_page_offset_unique(
                                    self.mapping()[floor_of(vk) as u64].ppn_spec() as int, (vk % 4096) as int,
                                    self.mapping()[floor_of(va) as u64].ppn_spec() as int, (va % 4096) as int);
                            }
                        } else {
                            assert(vk % 4096 != va % 4096);
                        }
                        assert(pk != pa.0);
                        assert(user_byte(self.mapping(), before, start_va.0 + k) == Some(data@[k]));
                    }
                };
                assert forall|w: int| #[trigger] self.framed_elsewhere(i as int, w) implies user_byte(self.mapping(), *mem, w) == user_byte(self.mapping(), *old(mem), w) by {
                    let i2 = choose|i2: int|
                        0 <= i2 < self.areas@.len() && i2 != i && (#[trigger] self.areas@[i2]).map_type == MapType::Framed
                            && self.areas@[i2].covers(floor_of(w as u64));
                    let vw = w as u64;
                    let pw = floor_of(vw) as u64;
                    let pv = floor_of(va) as u64;
                    assert(pw != pv) by {
                        if i < i2 {
                            assert(!ranges_meet(self.areas@[i as int].start(), self.areas@[i as int].end(), self.areas@[i2].start(), self.areas@[i2].end()));
                        } else {
                            assert(!ranges_meet(self.areas@[i2].start(), self.areas@[i2].end(), self.areas@[i as int].start(), self.areas@[i as int].end()));
                        }
                    };
                    self.lemma_framed_injective(i2, i as int, pw, pv);
                    let qw = phys_of(self.mapping(), w)->0;
                    if qw == pa.0 {
                        lemma_page_offset_unique(
                            self.mapping()[pw].ppn_spec() as int, (vw % 4096) as int,
                            self.mapping()[pv].ppn_spec() as int, (va % 4096) as int);
                    }
                    assert(user_byte(self.mapping(), *mem, w) == user_byte(self.mapping(), before, w));
                };
            }
            j = j + 1;
        }
        true
    }
}

/// Size of a user stack.
pub const USER_STACK_SIZE: u64 = 8192;

/// One loadable segment of a program image: its virtual bounds, its R (2),
/// W (4) and X (8) bits, and the bytes that start it (the rest is zero).
#[derive(Debug)]
pub struct ProgramSegment {
    pub start_va: u64,
    pub end_va: u64,
    pub perm: u8,
    pub data: Vec<u8>,
}

/// The permissions of a segment's region: its R, W and X bits, and U.
pub open spec fn segment_perm(p: u8) -> u8 {
    (p & 14u8) | 16u8
}

/// The region of segment `s`.
pub open spec fn segment_area(s: ProgramSegment) -> (int, int, MapType, u8) {
    (floor_of(s.start_va), ceil_of(s.end_va), MapType::Framed, segment_perm(s.perm))
}

/// The bytes of segment `s` can be read at its addresses.
pub open spec fn segment_loaded(m: Map<u64, PageTableEntry>, mem: PhysMemory, s: ProgramSegment) -> bool {
    forall|t: int| 0 <= t < s.data@.len() ==> user_byte(m, mem, s.start_va + t) == Some(#[trigger] s.data@[t])
}

/// Frames that loading segment `s` can take: its pages and the page-table
/// nodes that they cross.
pub open spec fn segment_pages(s: ProgramSegment) -> int {
    ceil_of(s.end_va) - floor_of(s.start_va) + span_nodes(floor_of(s.start_va) as u64, ceil_of(s.end_va) as u64)
}

/// Frames that loading all the segments can take.
pub open spec fn segments_pages(segs: Seq<ProgramSegment>) -> int
    decreases segs.len(),
{
    if segs.len() == 0 {
        0
    } else {
        segments_pages(segs.drop_last()) + segment_pages(segs.last())
    }
}

/// A prefix of the segments can take no more frames than all of them.
pub proof fn lemma_segments_pages_prefix(segs: Seq<ProgramSegment>, k: int)
    requires
        0 <= k <= segs.len(),
        forall|j: int| 0 <= j < segs.len() ==> (#[trigger] segs[j]).start_va <= segs[j].end_va,
    ensures
        segments_pages(segs.take(k)) <= segments_pages(segs),
        k < segs.len() ==> segments_pages(segs.take(k + 1)) == segments_pages(segs.take(k)) + segment_pages(segs[k]),
    decreases segs.len(),
{
    if k < segs.len() {
        assert(segs.take(k + 1).drop_last() =~= segs.take(k));
    }
    if segs.len() > 0 {
        if k == segs.len() {
            assert(segs.take(k) =~= segs);
        } else {
            let t = segs.drop_last();
            assert forall|j: int| 0 <= j < t.len() implies (#[trigger] t[j]).start_va <= t[j].end_va by {
                assert(t[j] == segs[j]);
            };
            lemma_segments_pages_prefix(t, k);
            assert(t.take(k) =~= segs.take(k));
            let l = segs.last();
            vstd::arithmetic::div_mod::lemma_div_is_ordered(l.start_va as int, l.end_va as int, 4096);
            assert(floor_of(l.end_va) <= ceil_of(l.end_va));
        }
    }
}

/// Each segment holds no more bytes than it spans, the segments come in
/// ascending order without sharing a page, and each leaves room for the
/// guard page and the user stack below the trampoline.
pub open spec fn segments_fit(segs: Seq<ProgramSegment>) -> bool {
    &&& forall|k: int| 0 <= k < segs.len() ==> {
        &&& (#[trigger] segs[k]).start_va <= segs[k].end_va
        &&& segs[k].data@.len() <= segs[k].end_va - segs[k].start_va
        &&& ceil_of(segs[k].end_va) * 4096 + 4096 + USER_STACK_SIZE <= TRAMPOLINE_VPN * 4096
    }
    &&& forall|j: int, k: int| 0 <= j < k < segs.len() ==> ceil_of((#[trigger] segs[j]).end_va) <= floor_of((#[trigger] segs[k]).start_va)
}

/// The trampoline's region, for trampoline code at `strampoline`.
pub open spec fn trampoline_area(strampoline: u64) -> (int, int, MapType, u8) {
    (TRAMPOLINE_VPN as int, TRAMPOLINE_VPN + 1int, MapType::Linear((TRAMPOLINE_VPN - strampoline / 4096) as u64), 10u8)
}

impl MemorySet {
    /// Adding a region that meets none of the first `k` segments' regions
    /// keeps their bytes readable.
    proof fn lemma_loaded_kept_by_push(
        segments: Seq<ProgramSegment>,
        k: int,
        before: MemorySet,
        after: MemorySet,
        mem: PhysMemory,
        start_va: u64,
        end_va: u64,
    )
        requires
            0 <= k <= segments.len(),
            before@.len() >= k + 1,
            forall|j: int| 0 <= j < k ==> before@[j + 1] == segment_area(#[trigger] segments[j]),
            forall|j: int| 0 <= j < k ==> (#[trigger] segments[j]).data@.len() <= segments[j].end_va - segments[j].start_va,
            forall|j: int| 0 <= j < k ==> segment_loaded(before.mapping(), mem, #[trigger] segments[j]),
            !before.conflicts(floor_of(start_va), ceil_of(end_va)),
            forall|v: u64| !(floor_of(start_va) <= v < ceil_of(end_va)) ==> {
                &&& #[trigger] after.mapping().contains_key(v) == before.mapping().contains_key(v)
                &&& before.mapping().contains_key(v) ==> after.mapping()[v] == before.mapping()[v]
            },
        ensures
            forall|j: int| 0 <= j < k ==> segment_loaded(after.mapping(), mem, #[trigger] segments[j]),
    {
        assert forall|j: int| 0 <= j < k implies segment_loaded(after.mapping(), mem, #[trigger] segments[j]) by {
            let sj = segments[j];
            assert forall|t: int| 0 <= t < sj.data@.len() implies user_byte(after.mapping(), mem, sj.start_va + t) == Some(#[trigger] sj.data@[t]) by {
                assert(user_byte(before.mapping(), mem, sj.start_va + t) == Some(sj.data@[t]));
                let w = sj.start_va + t;
                let pw = floor_of(w as u64) as u64;
                assert(floor_of(sj.start_va) <= pw < ceil_of(sj.end_va)) by {
                    vstd::arithmetic::div_mod::lemma_div_is_ordered(sj.start_va as int, w, 4096);
                    assert(floor_of(w as u64) < ceil_of(sj.end_va)) by (nonlinear_arith)
                        requires w < sj.end_va, w >= 0;
                };
                assert(!ranges_meet(floor_of(start_va), ceil_of(end_va), before@[j + 1].0, before@[j + 1].1));
                assert(!(floor_of(start_va) <= pw < ceil_of(end_va)));
                assert(after.mapping().contains_key(pw) == before.mapping().contains_key(pw));
            };
        };
    }

    /// Adds the trampoline page, mapped to the frame at `strampoline`.
    #[verifier::spinoff_prover]
    fn push_trampoline(&mut self, strampoline: u64, alloc: &mut StackFrameAllocator) -> (r: bool)
        requires
            old(self).wf(),
            old(alloc).wf(),
            old(self).owned_by(*old(alloc)),
            old(self)@.len() == 0,
            strampoline / 4096 <= TRAMPOLINE_VPN,
        ensures
            old(alloc).free_count() >= 2 ==> r,
            r ==> final(alloc).free_count() + 2 >= old(alloc).free_count(),
            takes_frames(old(alloc).outstanding(), final(alloc).outstanding(), old(self).owned_frames(), final(self).owned_frames()),
            final(self).wf(),
            final(alloc).wf(),
            final(self).owned_by(*final(alloc)),
            final(alloc).pool_start() == old(alloc).pool_start(),
            final(alloc).pool_end() == old(alloc).pool_end(),
            r ==> final(self)@ == seq![trampoline_area(strampoline)],
    {
        let offset = TRAMPOLINE_VPN - strampoline / 4096;
        let tramp = MapArea::new(
            VirtAddr(TRAMPOLINE_VPN * 4096),
            VirtAddr(TRAMPOLINE_VPN * 4096 + 4096),
            MapType::Linear(offset),
            MapPermission { bits: 10u8 },
        );
        proof {
            self.page_table.lemma_nodes_needed_bound(tramp.start() as u64, tramp.end() as u64);
            assert(tramp.data_pages() == 0);
            assert(span_nodes(tramp.start() as u64, tramp.end() as u64) == 2);
        }
        let r = self.push_area(tramp, alloc);
        if r {
            assert(self@ =~= seq![trampoline_area(strampoline)]);
        }
        r
    }

    /// Adds a framed region over `[start_va, end_va)` unless it is out of
    /// bounds or meets a region; the new region is the last one.
    #[verifier::spinoff_prover]
    fn push_framed_checked(&mut self, start_va: u64, end_va: u64, perm: u8, alloc: &mut StackFrameAllocator) -> (r: bool)
        requires
            old(self).wf(),
            old(alloc).wf(),
            old(self).owned_by(*old(alloc)),
        ensures
            start_va <= end_va <= TRAMPOLINE_VPN * 4096 && !old(self).conflicts(floor_of(start_va), ceil_of(end_va))
                && old(alloc).free_count() >= (ceil_of(end_va) - floor_of(start_va)) + span_nodes(floor_of(start_va) as u64, ceil_of(end_va) as u64) ==> r,
            r ==> final(alloc).free_count() + (ceil_of(end_va) - floor_of(start_va)) + span_nodes(floor_of(start_va) as u64, ceil_of(end_va) as u64)
                >= old(alloc).free_count(),
            takes_frames(old(alloc).outstanding(), final(alloc).outstanding(), old(self).owned_frames(), final(self).owned_frames()),
            final(self).wf(),
            final(alloc).wf(),
            final(self).owned_by(*final(alloc)),
            final(alloc).pool_start() == old(alloc).pool_start(),
            final(alloc).pool_end() == old(alloc).pool_end(),
            r ==> final(self)@ == old(self)@.push((floor_of(start_va), ceil_of(end_va), MapType::Framed, perm)),
            r ==> start_va <= end_va <= TRAMPOLINE_VPN * 4096,
            r ==> !old(self).conflicts(floor_of(start_va), ceil_of(end_va)),
            r ==> forall|v: u64| !(floor_of(start_va) <= v < ceil_of(end_va)) ==> {
                &&& #[trigger] final(self).mapping().contains_key(v) == old(self).mapping().contains_key(v)
                &&& old(self).mapping().contains_key(v) ==> final(self).mapping()[v] == old(self).mapping()[v]
            },
    {
        if start_va > end_va || end_va > TRAMPOLINE_VPN * 4096 {
            proof {
                lemma_takes_nothing(alloc.outstanding(), self.owned_frames());
            }
            return false;
        }
        if self.has_conflict_with_range(VirtAddr(start_va), VirtAddr(end_va)) {
            proof {
                lemma_takes_nothing(alloc.outstanding(), self.owned_frames());
            }
            return false;
        }
        let area = MapArea::new(VirtAddr(start_va), VirtAddr(end_va), MapType::Framed, MapPermission { bits: perm });
        proof {
            assert forall|i: int| 0 <= i < self.areas@.len() implies !ranges_meet(
                (#[trigger] self.areas@[i]).start(),
                self.areas@[i].end(),
                area.start(),
                area.end(),
            ) by {
                assert(self@[i] == self.areas@[i]@);
                assert(!ranges_meet(floor_of(start_va), ceil_of(end_va), self@[i].0, self@[i].1));
            };
        }
        proof {
            self.page_table.lemma_nodes_needed_bound(area.start() as u64, area.end() as u64);
            assert(area.data_pages() == area.end() - area.start());
        }
        self.push_area(area, alloc)
    }

    /// A user space for a program image: the trampoline, one framed region
    /// per segment (user-accessible, with the segment's R, W and X) holding
    /// the segment's bytes, an unmapped guard page above the last segment,
    /// and a user stack (R, W, U) above that. Returns the space, the top of
    /// the user stack and `entry`. `None` when a segment lies above its end,
    /// reaches past the user part of the address space, holds more bytes
    /// than it spans or meets an earlier one, or when frames or `mem` run
    /// short.
    #[verifier::spinoff_prover]
    pub fn from_segments(
        segments: &Vec<ProgramSegment>,
        entry: u64,
        strampoline: u64,
        alloc: &mut StackFrameAllocator,
        mem: &mut PhysMemory,
    ) -> (r: Option<(MemorySet, u64, u64)>)
        requires
            old(alloc).wf(),
            old(mem).wf(),
            strampoline / 4096 <= TRAMPOLINE_VPN,
        ensures
            segments_fit(segments@) && old(mem).base() <= old(alloc).pool_start() * 4096
                && old(alloc).pool_end() * 4096 <= old(mem).base() + old(mem)@.len()
                && old(alloc).free_count() >= 9 + segments_pages(segments@) ==> r is Some,
            final(alloc).wf(),
            final(alloc).pool_start() == old(alloc).pool_start(),
            final(alloc).pool_end() == old(alloc).pool_end(),
            final(mem).wf(),
            final(mem).base() == old(mem).base(),
            match r {
                Some((ms, sp, e)) => {
                    &&& ms.wf()
                    &&& ms.owned_by(*final(alloc))
                    &&& e == entry
                    &&& ms@.len() == segments@.len() + 2
                    &&& ms@[0] == trampoline_area(strampoline)
                    &&& forall|k: int| 0 <= k < segments@.len() ==> ms@[k + 1] == segment_area(#[trigger] segments@[k])
                    &&& forall|k: int| 0 <= k < segments@.len() ==> segment_loaded(ms.mapping(), *final(mem), #[trigger] segments@[k])
                    &&& ms@[segments@.len() as int + 1] == (
                        (sp - USER_STACK_SIZE) as int / 4096,
                        sp as int / 4096,
                        MapType::Framed,
                        22u8,
                    )
                    &&& final(alloc).outstanding() == old(alloc).outstanding().union(ms.owned_frames())
                    &&& sp as int - USER_STACK_SIZE == 4096 + (if segments@.len() == 0 { 0 } else {
                        ceil_of(segments@.last().end_va) * 4096
                    })
                },
                None => final(alloc).outstanding() == old(alloc).outstanding(),
            },
    {
        proof {
            if segments_fit(segments@) {
                lemma_segments_pages_prefix(segments@, 0);
                assert(segments@.take(0) =~= Seq::<ProgramSegment>::empty());
            }
        }
        let mut ms = match MemorySet::new_bare(alloc) {
            Some(ms) => ms,
            None => return None,
        };
        let ghost a0 = old(alloc).outstanding();
        let ghost good = segments_fit(segments@) && old(mem).base() <= old(alloc).pool_start() * 4096
            && old(alloc).pool_end() * 4096 <= old(mem).base() + old(mem)@.len()
            && old(alloc).free_count() >= 9 + segments_pages(segments@);
        let ghost out0 = alloc.outstanding();
        let ghost own0 = ms.owned_frames();
        let pushed = ms.push_trampoline(strampoline, alloc);
        proof {
            lemma_takes_frames_compose(a0, out0, alloc.outstanding(), own0, ms.owned_frames());
        }
        if !pushed {
            proof {
                lemma_release_restores(a0, ms.owned_frames());
            }
            ms.release(alloc);
            return None;
        }
        let mut last_end: u64 = 0;
        let mut k: usize = 0;
        while k < segments.len()
            invariant
                k <= segments@.len(),
                ms.wf(),
                alloc.wf(),
                ms.owned_by(*alloc),
                alloc.pool_start() == old(alloc).pool_start(),
                alloc.pool_end() == old(alloc).pool_end(),
                mem.wf(),
                mem.base() == old(mem).base(),
                ms@.len() == k + 1,
                ms@[0] == trampoline_area(strampoline),
                forall|j: int| 0 <= j < k ==> ms@[j + 1] == segment_area(#[trigger] segments@[j]),
                last_end == (if k == 0 { 0 } else { ceil_of(segments@[k - 1].end_va) }),
                last_end <= TRAMPOLINE_VPN,
                a0 == old(alloc).outstanding(),
                good == (segments_fit(segments@) && old(mem).base() <= old(alloc).pool_start() * 4096
                    && old(alloc).pool_end() * 4096 <= old(mem).base() + old(mem)@.len()
                    && old(alloc).free_count() >= 9 + segments_pages(segments@)),
                mem@.len() == old(mem)@.len(),
                good ==> alloc.free_count() + segments_pages(segments@.take(k as int)) + 3 >= old(alloc).free_count(),
                alloc.outstanding() == a0.union(ms.owned_frames()),
                a0.disjoint(ms.owned_frames()),
                forall|j: int| 0 <= j < k ==> (#[trigger] segments@[j]).data@.len() <= segments@[j].end_va - segments@[j].start_va,
                forall|j: int| 0 <= j < k ==> (#[trigger] segments@[j]).start_va <= segments@[j].end_va,
                forall|j: int| 0 <= j < k ==> segment_loaded(ms.mapping(), *mem, #[trigger] segments@[j]),
            decreases segments.len() - k,
        {
            let seg = &segments[k];
            let perm = (seg.perm & 14u8) | 16u8;
            let ghost before = ms@;
            let ghost before_ms = ms;
            proof {
                if good {
                    assert(!ms.conflicts(floor_of(seg.start_va), ceil_of(seg.end_va))) by {
                        assert forall|x: int| 0 <= x < ms@.len() implies !ranges_meet(
                            floor_of(seg.start_va), ceil_of(seg.end_va), (#[trigger] ms@[x]).0, ms@[x].1) by {
                            if x > 0 {
                                assert(ms@[x] == segment_area(segments@[x - 1]));
                                assert(ceil_of(segments@[x - 1].end_va) <= floor_of(segments@[k as int].start_va));
                            }
                        };
                    };
                    lemma_segments_pages_prefix(segments@, k as int);
                    lemma_segments_pages_prefix(segments@, k as int + 1);
                }
            }
            let ghost out0 = alloc.outstanding();
            let ghost own0 = ms.owned_frames();
            let pushed = ms.push_framed_checked(seg.start_va, seg.end_va, perm, alloc);
            proof {
                lemma_takes_frames_compose(a0, out0, alloc.outstanding(), own0, ms.owned_frames());
            }
            if !pushed {
                proof {
                    lemma_release_restores(a0, ms.owned_frames());
                }
                ms.release(alloc);
                return None;
            }
            if seg.data.len() as u64 > seg.end_va - seg.start_va {
                proof {
                    lemma_release_restores(a0, ms.owned_frames());
                }
                ms.release(alloc);
                return None;
            }
            proof {
                Self::lemma_loaded_kept_by_push(segments@, k as int, before_ms, ms, *mem, seg.start_va, seg.end_va);
            }
            let ghost before_copy = *mem;
            assert(ms.areas@.len() == ms@.len());
            let i = ms.areas.len() - 1;
            proof {
                assert(i == k + 1);
                assert(ms@[i as int] == ms.areas@[i as int]@);
                assert(ms@[i as int] == (floor_of(seg.start_va), ceil_of(seg.end_va), MapType::Framed, perm));
                assert(ms.areas@[i as int].map_type == MapType::Framed);
                assert(ms.areas@[i as int].start() == floor_of(seg.start_va));
                assert(ms.areas@[i as int].end() == ceil_of(seg.end_va));
                assert(ms.framed_holds(i as int, seg.start_va as int, seg.data@.len() as int)) by {
                    if seg.data@.len() > 0 {
                        assert(floor_of(seg.start_va) * 4096 <= seg.start_va) by (nonlinear_arith);
                        assert(seg.end_va <= ceil_of(seg.end_va) * 4096) by (nonlinear_arith);
                    }
                };
            }
            proof {
                if good {
                    assert forall|p: u64| #[trigger] ms.areas@[i as int].frame_set().contains(p) implies mem.base() <= p * 4096
                        && p * 4096 + 4096 <= mem.base() + mem@.len() by {
                        assert(ms.areas@[i as int].frame_set().subset_of(alloc.outstanding()));
                        alloc.lemma_outstanding_in_pool(p);
                        assert(p * 4096 + 4096 <= alloc.pool_end() * 4096) by (nonlinear_arith)
                            requires p < alloc.pool_end();
                        assert(alloc.pool_start() * 4096 <= p * 4096) by (nonlinear_arith)
                            requires alloc.pool_start() <= p;
                    };
                }
            }
            if !ms.copy_data(mem, VirtAddr(seg.start_va), &seg.data, i) {
                proof {
                    lemma_release_restores(a0, ms.owned_frames());
                }
                ms.release(alloc);
                return None;
            }
            proof {
                assert forall|j: int| 0 <= j < k + 1 implies segment_loaded(ms.mapping(), *mem, #[trigger] segments@[j]) by {
                    if j < k {
                        let sj = segments@[j];
                        assert forall|t: int| 0 <= t < sj.data@.len() implies user_byte(ms.mapping(), *mem, sj.start_va + t) == Some(#[trigger] sj.data@[t]) by {
                            assert(segment_loaded(ms.mapping(), before_copy, sj));
                            assert(user_byte(ms.mapping(), before_copy, sj.start_va + t) == Some(sj.data@[t]));
                            let w = sj.start_va + t;
                            assert(floor_of(sj.start_va) <= floor_of(w as u64) < ceil_of(sj.end_va)) by {
                                vstd::arithmetic::div_mod::lemma_div_is_ordered(sj.start_va as int, w, 4096);
                                assert(floor_of(w as u64) < ceil_of(sj.end_va)) by (nonlinear_arith)
                                    requires w < sj.end_va, w >= 0;
                            };
                            assert(ms@[j + 1] == ms.areas@[j + 1]@);
                            assert(ms.areas@[j + 1].covers(floor_of(w as u64)));
                            assert(ms.framed_elsewhere(i as int, w));
                        };
                    }
                };
            }
            last_end = VirtAddr(seg.end_va).ceil().0;
            assert(ms@[k as int + 1] == segment_area(segments@[k as int]));
            proof {
                assert forall|j: int| 0 <= j < k + 1 implies ms@[j + 1] == segment_area(#[trigger] segments@[j]) by {
                    if j < k {
                        assert(ms@[j + 1] == before[j + 1]);
                    }
                };
            }
            k = k + 1;
        }
        let bottom = last_end * 4096 + 4096;
        let top = bottom + USER_STACK_SIZE;
        let ghost before_ms = ms;
        proof {
            assert(bottom % 4096 == 0 && top % 4096 == 0) by (nonlinear_arith)
                requires bottom == last_end * 4096 + 4096, top == bottom + 8192;
            if good {
                assert(segments@.take(segments@.len() as int) =~= segments@);
                assert(!ms.conflicts(floor_of(bottom), ceil_of(top))) by {
                    assert forall|x: int| 0 <= x < ms@.len() implies !ranges_meet(
                        floor_of(bottom), ceil_of(top), (#[trigger] ms@[x]).0, ms@[x].1) by {
                        if x > 0 {
                            let n = segments@.len() as int;
                            assert(ms@[x] == segment_area(segments@[x - 1]));
                            if x - 1 < n - 1 {
                                assert(ceil_of(segments@[x - 1].end_va) <= floor_of(segments@[n - 1].start_va));
                                vstd::arithmetic::div_mod::lemma_div_is_ordered(segments@[n - 1].start_va as int, segments@[n - 1].end_va as int, 4096);
                            }
                        } else if segments@.len() > 0 {
                            assert(ceil_of(segments@[segments@.len() - 1].end_va) * 4096 + 4096 + USER_STACK_SIZE <= TRAMPOLINE_VPN * 4096);
                        }
                    };
                };
            }
        }
        let ghost out0 = alloc.outstanding();
        let ghost own0 = ms.owned_frames();
        let pushed = ms.push_framed_checked(bottom, top, 22u8, alloc);
        proof {
            lemma_takes_frames_compose(a0, out0, alloc.outstanding(), own0, ms.owned_frames());
        }
        if !pushed {
            proof {
                lemma_release_restores(a0, ms.owned_frames());
            }
            ms.release(alloc);
            return None;
        }
        proof {
            assert(bottom % 4096 == 0 && top % 4096 == 0) by (nonlinear_arith)
                requires bottom == last_end * 4096 + 4096, top == bottom + 8192;
            assert(floor_of(bottom) == bottom / 4096);
            assert(ceil_of(top) == top / 4096);
            assert forall|j: int| 0 <= j < segments@.len() implies ms@[j + 1] == segment_area(#[trigger] segments@[j]) by {
                assert(ms@[j + 1] == ms@.drop_last()[j + 1]);
            };
            Self::lemma_loaded_kept_by_push(segments@, segments@.len() as int, before_ms, ms, *mem, bottom, top);
        }
        Some((ms, top, entry))
    }
}

impl MemorySet {
    /// Every frame this space owns: those of its page table's nodes and
    /// those of its framed regions.
    pub closed spec fn owned_frames(&self) -> Set<u64> {
        Set::new(|p: u64| self.page_table.frame_set().contains(p) || exists|j: int|
            0 <= j < self.areas@.len() && (#[trigger] self.areas@[j]).frame_set().contains(p))
    }

    /// Tears the space down: unmaps and drops every region and returns every
    /// frame it owns to `alloc`.
    pub fn release(self, alloc: &mut StackFrameAllocator)
        requires
            self.wf(),
            old(alloc).wf(),
            self.owned_by(*old(alloc)),
        ensures
            final(alloc).wf(),
            final(alloc).pool_start() == old(alloc).pool_start(),
            final(alloc).pool_end() == old(alloc).pool_end(),
            final(alloc).outstanding() == old(alloc).outstanding().difference(self.owned_frames()),
    {
        let ghost orig = self;
        let mut ms = self;
        while ms.areas.len() > 0
            invariant
                ms.wf(),
                alloc.wf(),
                ms.owned_by(*alloc),
                alloc.pool_start() == old(alloc).pool_start(),
                alloc.pool_end() == old(alloc).pool_end(),
                ms.page_table.frame_set() == orig.page_table.frame_set(),
                ms.areas@.len() <= orig.areas@.len(),
                ms.areas@ == orig.areas@.take(ms.areas@.len() as int),
                forall|p: u64| #[trigger] alloc.outstanding().contains(p) <==> (old(alloc).outstanding().contains(p)
                    && !exists|j: int| ms.areas@.len() <= j < orig.areas@.len() && (#[trigger] orig.areas@[j]).frame_set().contains(p)),
            decreases ms.areas.len(),
        {
            let last = ms.areas.len() - 1;
            let ghost before = *alloc;
            let ghost fs = ms.areas@[last as int].frame_set();
            let ghost n = ms.areas@.len();
            assert(ms.areas@[last as int] == orig.areas@[last as int]);
            ms.remove_area_at(last, alloc);
            proof {
                assert(ms.areas@.len() == last);
                assert(ms.areas@ =~= orig.areas@.take(last as int)) by {
                    assert forall|k: int| 0 <= k < last implies ms.areas@[k] == orig.areas@[k] by {
                        assert(ms.areas@[k] == orig.areas@.take(n as int)[k]);
                    };
                };
                assert forall|p: u64| #[trigger] alloc.outstanding().contains(p) <==> (old(alloc).outstanding().contains(p)
                    && !exists|j: int| last <= j < orig.areas@.len() && (#[trigger] orig.areas@[j]).frame_set().contains(p)) by {
                    if alloc.outstanding().contains(p) {
                        assert(before.outstanding().contains(p) && !fs.contains(p));
                        if exists|j: int| last <= j < orig.areas@.len() && (#[trigger] orig.areas@[j]).frame_set().contains(p) {
                            let j = choose|j: int| last <= j < orig.areas@.len() && (#[trigger] orig.areas@[j]).frame_set().contains(p);
                            if j == last {
                            } else {
                                assert(n <= j);
                            }
                        }
                    } else if old(alloc).outstanding().contains(p) && !exists|j: int| last <= j < orig.areas@.len() && (#[trigger] orig.areas@[j]).frame_set().contains(p) {
                        assert(!fs.contains(p));
                        assert(!exists|j: int| n <= j < orig.areas@.len() && (#[trigger] orig.areas@[j]).frame_set().contains(p)) by {
                            if exists|j: int| n <= j < orig.areas@.len() && (#[trigger] orig.areas@[j]).frame_set().contains(p) {
                                let j = choose|j: int| n <= j < orig.areas@.len() && (#[trigger] orig.areas@[j]).frame_set().contains(p);
                                assert(last <= j);
                            }
                        };
                        assert(before.outstanding().contains(p));
                    }
                };
            }
        }
        let ghost before = *alloc;
        ms.page_table.release(alloc);
        proof {
            assert forall|p: u64| alloc.outstanding().contains(p) <==> old(alloc).outstanding().difference(orig.owned_frames()).contains(p) by {
                if old(alloc).outstanding().contains(p) && !orig.owned_frames().contains(p) {
                    assert(!exists|j: int| 0 <= j < orig.areas@.len() && (#[trigger] orig.areas@[j]).frame_set().contains(p));
                    assert(before.outstanding().contains(p));
                }
                if alloc.outstanding().contains(p) {
                    assert(before.outstanding().contains(p));
                    assert(!orig.page_table.frame_set().contains(p));
                    if exists|j: int| 0 <= j < orig.areas@.len() && (#[trigger] orig.areas@[j]).frame_set().contains(p) {
                        let j = choose|j: int| 0 <= j < orig.areas@.len() && (#[trigger] orig.areas@[j]).frame_set().contains(p);
                        assert(0 <= j);
                    }
                }
            };
            assert(alloc.outstanding() =~= old(alloc).outstanding().difference(orig.owned_frames()));
        }
    }
}

impl MemorySet {
    /// No two regions of a well-formed space share a page.
    pub proof fn lemma_regions_disjoint(&self)
        requires
            self.wf(),
        ensures
            forall|i: int, j: int|
                0 <= i < j < self@.len() ==> !ranges_meet(
                    (#[trigger] self@[i]).0,
                    self@[i].1,
                    (#[trigger] self@[j]).0,
                    self@[j].1,
                ),
    {
        assert forall|i: int, j: int| 0 <= i < j < self@.len() implies !ranges_meet(
            (#[trigger] self@[i]).0,
            self@[i].1,
            (#[trigger] self@[j]).0,
            self@[j].1,
        ) by {
            assert(self@[i] == self.areas@[i]@);
            assert(self@[j] == self.areas@[j]@);
        };
    }

    /// Region `i` owns the frames that its pages map to when it is framed and
    /// none otherwise; a removal hands them back last page first.
    pub proof fn lemma_area_frames(&self, i: int)
        requires
            self.wf(),
            0 <= i < self@.len(),
        ensures
            self@[i].2 != MapType::Framed ==> self.area_frames(i) == Set::<u64>::empty()
                && self.area_release_order(i).len() == 0,
            self@[i].2 == MapType::Framed ==> self.area_release_order(i).len() == self@[i].1 - self@[i].0,
            self@[i].2 == MapType::Framed ==> forall|k: int| 0 <= k < self.area_release_order(i).len() ==> {
                &&& self.mapping().contains_key((self@[i].1 - 1 - k) as u64)
                &&& #[trigger] self.area_release_order(i)[k] == self.mapping()[(self@[i].1 - 1 - k) as u64].ppn_spec()
            },
            forall|p: u64| #[trigger] self.area_frames(i).contains(p) <==> exists|k: int|
                0 <= k < self.area_release_order(i).len() && self.area_release_order(i)[k] == p,
    {
        let a = self.areas@[i];
        assert(self@[i] == a@);
        assert(a.wf());
        let f = a.data_frames@;
        let ro = self.area_release_order(i);
        if a.map_type != MapType::Framed {
            assert(a.frame_set() =~= Set::<u64>::empty());
        } else {
            assert forall|k: int| 0 <= k < ro.len() implies {
                &&& self.mapping().contains_key((self@[i].1 - 1 - k) as u64)
                &&& #[trigger] ro[k] == self.mapping()[(self@[i].1 - 1 - k) as u64].ppn_spec()
            } by {
                let v = (a.end() - 1 - k) as u64;
                assert(a.covers(v as int));
                assert(self.page_table@.contains_key(v) && self.page_table@[v] == a.entry(v as int));
                assert(f[v - a.start()].ppn.0 < PPN_LIMIT);
                lemma_pte_fields(f[v - a.start()].ppn.0, a.map_perm.bits | 1u8);
                assert(v - a.start() == f.len() - 1 - k);
            };
        }
        assert forall|p: u64| #[trigger] self.area_frames(i).contains(p) <==> exists|k: int|
            0 <= k < ro.len() && ro[k] == p by {
            if self.area_frames(i).contains(p) {
                let m = choose|m: int| 0 <= m < f.len() && f[m].ppn.0 == p;
                assert(ro[f.len() - 1 - m] == p);
            }
            if exists|k: int| 0 <= k < ro.len() && ro[k] == p {
                let k = choose|k: int| 0 <= k < ro.len() && ro[k] == p;
                assert(f[f.len() - 1 - k].ppn.0 == p);
            }
        };
    }
}

impl MemorySet {
    /// Mapping the pages `[s, e)` needs no node frame where every page's
    /// page-table nodes exist.
    pub proof fn lemma_present_needs_no_node(&self, s: u64, e: u64)
        requires
            forall|v: u64| s <= v < e ==> #[trigger] self.nodes_present(v),
        ensures
            self.frames_needed(s, e) == 0,
    {
        assert forall|x: u64| s <= x < e implies #[trigger] self.page_table.missing_upper(x) == 0
            && self.page_table.missing_lower(x) == 0 by {
            assert(self.nodes_present(x));
        };
        self.page_table.lemma_nodes_needed_zero(s, e);
    }

    /// Mapping the pages `[s, e)` needs at most one node frame per leaf-node
    /// index and per second-level index that the pages cross.
    pub proof fn lemma_frames_needed_bound(&self, s: u64, e: u64)
        ensures
            0 <= self.frames_needed(s, e) <= span_nodes(s, e),
    {
        self.page_table.lemma_nodes_needed_bound(s, e);
    }
}

} // verus!
