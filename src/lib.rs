//! SV39 virtual-memory core: address types, a physical frame allocator,
//! page tables, memory sets of mapped regions, and the `mmap`/`munmap`
//! entry points built on them.
//!
//! Every process has a memory set that controls its virtual memory; the
//! kernel has one of its own.

mod address;
mod frame_allocator;
mod page_table;
mod memory_set;
mod user_access;

pub use address::{PhysAddr, PhysPageNum, VirtAddr, VirtPageNum, VPNRange};
pub use address::{PAGE_SIZE, PAGE_SIZE_BITS, PA_LIMIT, VA_LIMIT, PPN_LIMIT, VPN_LIMIT};
pub use address::{floor_of, ceil_of, lemma_floor_scales_back};
pub use frame_allocator::{FrameTracker, StackFrameAllocator, ppn_set, distinct_frames};
pub use page_table::{PageTable, PageTableEntry, PTEFlags, pte_bits, lemma_pte_fields, lemma_map_unmap_map};
pub use page_table::span_nodes;
pub use page_table::{PTE_V, PTE_R, PTE_W, PTE_X, PTE_U, PTE_G, PTE_A, PTE_D};
pub use memory_set::{MapArea, MapPermission, MapType, MemorySet, KernelLayout};
pub use memory_set::{MAP_R, MAP_W, MAP_X, MAP_U, TRAMPOLINE_VPN, USER_STACK_SIZE, ProgramSegment};
pub use memory_set::{segment_perm, segment_area, trampoline_area, segment_loaded, segment_pages, segments_pages, segments_fit};
pub use memory_set::{lemma_segments_pages_prefix, kernel_frames, takes_frames, layout_valid};
pub use user_access::{PhysMemory, translated_str, translated_byte_buffer, read_user_bytes, write_user_bytes, after_writes, translated_u64, le_u64, phys_of, user_byte, is_char, chunks_len, chunk_ok};
pub use memory_set::{lemma_ranges_meet_iff_shared_page, page_in, ranges_meet, layout_ok, kernel_areas, identical_upto};

use vstd::prelude::*;

verus! {

/// The permission bits that `mmap` gives for `port`: bit 0 read, bit 1
/// write, bit 2 execute, and always user. Other bits of `port` are ignored.
pub open spec fn perm_of_port(port: u64) -> u8 {
    (16 + (port % 2) * 2 + ((port / 2) % 2) * 4 + ((port / 4) % 2) * 8) as u8
}

/// Sets up the frame pool over physical memory above the kernel image and
/// builds kernel space: each section and the rest of memory mapped to
/// itself with the section's permissions and no U bit, and the trampoline
/// (R, X). `None` when the pool runs out of frames for kernel space's page
/// table, which cannot happen when the pool holds [`kernel_frames`].
pub fn init(layout: KernelLayout) -> (r: Option<(StackFrameAllocator, MemorySet)>)
    requires
        layout_ok(layout),
    ensures
        layout.memory_end / 4096 - layout.ekernel / 4096 >= kernel_frames(layout) ==> r is Some,
        match r {
            Some((alloc, ms)) => {
                &&& alloc.wf()
                &&& alloc.pool_start() == layout.ekernel / 4096
                &&& alloc.pool_end() == layout.memory_end / 4096
                &&& ms.wf()
                &&& ms.owned_by(alloc)
                &&& ms@ == kernel_areas(layout)
                &&& identical_upto(ms.mapping(), layout, 5)
                &&& ms.mapping().contains_key(TRAMPOLINE_VPN)
                &&& ms.mapping()[TRAMPOLINE_VPN].ppn_spec() == layout.strampoline / 4096
                &&& ms.mapping()[TRAMPOLINE_VPN].flags_spec() == 11u8
                &&& alloc.outstanding() == ms.owned_frames()
            },
            None => true,
        },
{
    let mut alloc = StackFrameAllocator::new(
        PhysAddr(layout.ekernel).ceil(),
        PhysAddr(layout.memory_end).floor(),
    );
    match MemorySet::new_kernel(layout, &mut alloc) {
        Some(ms) => {
            assert(Set::<u64>::empty().union(ms.owned_frames()) =~= ms.owned_frames());
            Some((alloc, ms))
        },
        None => None,
    }
}

/// Maps `[start_va, end_va)`, widened to whole pages, as a new framed region
/// of `mem_set` with the permissions of `port`. Returns 0, or -1 with nothing
/// changed when that page range is reversed, reaches past the address space
/// or meets a region, or when `alloc` holds fewer frames than the pages plus
/// the page-table nodes that mapping them needs (nodes that do not exist yet).
#[verifier::spinoff_prover]
pub fn mmap(
    mem_set: &mut MemorySet,
    alloc: &mut StackFrameAllocator,
    start_va: VirtAddr,
    end_va: VirtAddr,
    port: u64,
) -> (r: i64)
    requires
        old(mem_set).wf(),
        old(alloc).wf(),
        old(mem_set).owned_by(*old(alloc)),
    ensures
        final(mem_set).wf(),
        final(alloc).wf(),
        final(mem_set).owned_by(*final(alloc)),
        final(alloc).pool_start() == old(alloc).pool_start(),
        final(alloc).pool_end() == old(alloc).pool_end(),
        r == 0 || r == -1,
        (r == 0) == (floor_of(start_va.0) <= ceil_of(end_va.0) && end_va.0 <= VA_LIMIT && !old(mem_set).conflicts(
            floor_of(start_va.0),
            ceil_of(end_va.0),
        ) && old(alloc).free_count() >= (ceil_of(end_va.0) - floor_of(start_va.0)) + old(mem_set).frames_needed(
            floor_of(start_va.0) as u64,
            ceil_of(end_va.0) as u64,
        )),
        r == 0 ==> final(alloc).free_count() + (ceil_of(end_va.0) - floor_of(start_va.0)) + old(mem_set).frames_needed(
            floor_of(start_va.0) as u64,
            ceil_of(end_va.0) as u64,
        ) >= old(alloc).free_count(),
        takes_frames(old(alloc).outstanding(), final(alloc).outstanding(), old(mem_set).owned_frames(), final(mem_set).owned_frames()),
        r == 0 ==> forall|v: u64| floor_of(start_va.0) <= v < ceil_of(end_va.0) ==> #[trigger] final(mem_set).nodes_present(v),
        forall|v: u64| #[trigger] old(mem_set).nodes_present(v) ==> final(mem_set).nodes_present(v),
        r == 0 ==> forall|v: u64| #![trigger final(mem_set).mapping()[v]]
            floor_of(start_va.0) <= v < ceil_of(end_va.0) ==> {
            &&& final(alloc).outstanding().contains(final(mem_set).mapping()[v].ppn_spec())
            &&& !old(alloc).outstanding().contains(final(mem_set).mapping()[v].ppn_spec())
        },
        r == 0 ==> forall|v1: u64, v2: u64|
            floor_of(start_va.0) <= v1 < ceil_of(end_va.0) && floor_of(start_va.0) <= v2 < ceil_of(end_va.0) && v1 != v2
            ==> #[trigger] final(mem_set).mapping()[v1].ppn_spec() != #[trigger] final(mem_set).mapping()[v2].ppn_spec(),
        r == -1 ==> *final(mem_set) == *old(mem_set) && *final(alloc) == *old(alloc),
        r == 0 ==> final(mem_set)@ == old(mem_set)@.push(
            (floor_of(start_va.0), ceil_of(end_va.0), MapType::Framed, perm_of_port(port)),
        ),
        r == 0 ==> forall|v: u64| #![trigger final(mem_set).mapping().contains_key(v)]
            floor_of(start_va.0) <= v < ceil_of(end_va.0) ==> {
            &&& final(mem_set).mapping().contains_key(v)
            &&& final(mem_set).mapping()[v].flags_spec() == perm_of_port(port) | 1u8
        },
        r == 0 ==> forall|v: u64| !(floor_of(start_va.0) <= v < ceil_of(end_va.0)) ==> (
            #[trigger] final(mem_set).mapping().contains_key(v) == old(mem_set).mapping().contains_key(v)),
        r == 0 ==> forall|v: u64| !(floor_of(start_va.0) <= v < ceil_of(end_va.0)) && old(mem_set).mapping().contains_key(v)
            ==> #[trigger] final(mem_set).mapping()[v] == old(mem_set).mapping()[v],
{
    let ghost m0 = mem_set.mapping();
    let mut bits: u8 = MAP_U;
    if port % 2 == 1 {
        bits = bits + MAP_R;
    }
    if (port / 2) % 2 == 1 {
        bits = bits + MAP_W;
    }
    if (port / 4) % 2 == 1 {
        bits = bits + MAP_X;
    }
    assert(bits == perm_of_port(port));
    if mem_set.insert_framed_area(start_va, end_va, MapPermission { bits }, alloc) {
        assert forall|v: u64| #![trigger mem_set.mapping().contains_key(v)]
            floor_of(start_va.0) <= v < ceil_of(end_va.0) implies {
            &&& mem_set.mapping().contains_key(v)
            &&& mem_set.mapping()[v].flags_spec() == perm_of_port(port) | 1u8
        } by {
            assert(mem_set.mapping().contains_key(v));
            assert(mem_set.mapping()[v].flags_spec() == bits | 1u8);
        };
        assert forall|v: u64| #![trigger mem_set.mapping()[v]]
            floor_of(start_va.0) <= v < ceil_of(end_va.0) implies {
            &&& alloc.outstanding().contains(mem_set.mapping()[v].ppn_spec())
            &&& !old(alloc).outstanding().contains(mem_set.mapping()[v].ppn_spec())
        } by {
            assert(mem_set.mapping().contains_key(v));
        };
        assert forall|v: u64| !(floor_of(start_va.0) <= v < ceil_of(end_va.0)) && m0.contains_key(v)
            implies #[trigger] mem_set.mapping()[v] == m0[v] by {
            assert(mem_set.mapping().contains_key(v) == m0.contains_key(v));
        };
        0
    } else {
        -1
    }
}

/// Removes the region of `mem_set` whose pages are exactly
/// `[floor(start_va), ceil(end_va))`, unmapping its pages and returning its
/// frames to `alloc`. Returns 0, or -1 with nothing changed when no region
/// has those bounds.
pub fn munmap(
    mem_set: &mut MemorySet,
    alloc: &mut StackFrameAllocator,
    start_va: VirtAddr,
    end_va: VirtAddr,
) -> (r: i64)
    requires
        old(mem_set).wf(),
        old(alloc).wf(),
        old(mem_set).owned_by(*old(alloc)),
    ensures
        forall|v: u64| #[trigger] final(mem_set).nodes_present(v) == old(mem_set).nodes_present(v),
        final(mem_set).wf(),
        final(alloc).wf(),
        final(mem_set).owned_by(*final(alloc)),
        final(alloc).pool_start() == old(alloc).pool_start(),
        final(alloc).pool_end() == old(alloc).pool_end(),
        r == 0 || r == -1,
        (r == 0) == exists|i: int|
            0 <= i < old(mem_set)@.len() && (#[trigger] old(mem_set)@[i]).0 == floor_of(start_va.0)
                && old(mem_set)@[i].1 == ceil_of(end_va.0),
        r == -1 ==> *final(mem_set) == *old(mem_set) && *final(alloc) == *old(alloc),
        r == 0 ==> exists|i: int| {
            &&& 0 <= i < old(mem_set)@.len()
            &&& (#[trigger] old(mem_set)@[i]).0 == floor_of(start_va.0)
            &&& old(mem_set)@[i].1 == ceil_of(end_va.0)
            &&& final(mem_set)@ == old(mem_set)@.remove(i)
            &&& forall|k: int| 0 <= k < i ==> !((#[trigger] old(mem_set)@[k]).0 == floor_of(start_va.0) && old(mem_set)@[k].1 == ceil_of(end_va.0))
            &&& final(alloc).outstanding() == old(alloc).outstanding().difference(old(mem_set).area_frames(i))
            &&& final(alloc).free_stack() == old(alloc).free_stack() + old(mem_set).area_release_order(i)
            &&& final(alloc).free_count() == old(alloc).free_count() + (if old(mem_set)@[i].2 == MapType::Framed {
                ceil_of(end_va.0) - floor_of(start_va.0)
            } else {
                0
            })
        },
        r == 0 ==> forall|v: u64| #[trigger] final(mem_set).mapping().contains_key(v) == (old(mem_set).mapping().contains_key(v)
            && !(floor_of(start_va.0) <= v < ceil_of(end_va.0))),
        forall|v: u64| #[trigger] final(mem_set).mapping().contains_key(v) ==> final(mem_set).mapping()[v] == old(mem_set).mapping()[v],
{
    let start_vn = start_va.floor();
    let end_vn = end_va.ceil();
    mem_set.unmap_area_exact_range(start_vn, end_vn, alloc)
}

/// With a page range inside the address space and a pool holding its pages
/// plus one node per index they cross, `mmap` fails exactly when the pages
/// meet a region of the space.
pub proof fn lemma_mmap_fails_only_on_conflict(mem_set: MemorySet, alloc: StackFrameAllocator, start_va: VirtAddr, end_va: VirtAddr)
    requires
        floor_of(start_va.0) <= ceil_of(end_va.0),
        end_va.0 <= VA_LIMIT,
        alloc.free_count() >= (ceil_of(end_va.0) - floor_of(start_va.0)) + span_nodes(
            floor_of(start_va.0) as u64,
            ceil_of(end_va.0) as u64,
        ),
    ensures
        (floor_of(start_va.0) <= ceil_of(end_va.0) && end_va.0 <= VA_LIMIT && !mem_set.conflicts(
            floor_of(start_va.0),
            ceil_of(end_va.0),
        ) && alloc.free_count() >= (ceil_of(end_va.0) - floor_of(start_va.0)) + mem_set.frames_needed(
            floor_of(start_va.0) as u64,
            ceil_of(end_va.0) as u64,
        )) == !mem_set.conflicts(floor_of(start_va.0), ceil_of(end_va.0)),
{
    mem_set.lemma_frames_needed_bound(floor_of(start_va.0) as u64, ceil_of(end_va.0) as u64);
}

} // verus!
