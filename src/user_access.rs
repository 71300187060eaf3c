//! Physical memory as bytes, and reading a user space's memory through its
//! page table.

use vstd::prelude::*;
use crate::address::{PhysAddr, VirtAddr, PAGE_SIZE, VA_LIMIT, floor_of};
use crate::page_table::{PageTable, PageTableEntry};

verus! {

/// The bytes of the physical frames `[base_ppn, base_ppn + pages)`.
pub struct PhysMemory {
    base_ppn: u64,
    bytes: Vec<u8>,
}

impl PhysMemory {
    pub closed spec fn view(&self) -> Seq<u8> {
        self.bytes@
    }

    /// First byte address held.
    pub closed spec fn base(&self) -> int {
        self.base_ppn * 4096
    }

    pub closed spec fn wf(&self) -> bool {
        self.base_ppn * 4096 + self.bytes@.len() <= u64::MAX
    }

    pub open spec fn holds(&self, pa: int) -> bool {
        self.base() <= pa < self.base() + self@.len()
    }

    /// The byte at physical address `pa`.
    pub open spec fn byte_at(&self, pa: int) -> u8 {
        self@[pa - self.base()]
    }

    /// `pages` zeroed frames from frame `base_ppn` on.
    pub fn new(base_ppn: u64, pages: u64) -> (r: PhysMemory)
        requires
            (base_ppn + pages) * 4096 <= u64::MAX,
            pages * 4096 <= usize::MAX,
        ensures
            r.wf(),
            r.base() == base_ppn * 4096,
            r@ == Seq::new((pages * 4096) as nat, |i: int| 0u8),
    {
        let n = pages * 4096;
        let mut bytes: Vec<u8> = Vec::new();
        let mut i: u64 = 0;
        while i < n
            invariant
                i <= n,
                bytes@ == Seq::new(i as nat, |k: int| 0u8),
            decreases n - i,
        {
            bytes.push(0u8);
            i = i + 1;
            assert(bytes@ =~= Seq::new(i as nat, |k: int| 0u8));
        }
        assert(base_ppn * 4096 + n <= u64::MAX) by (nonlinear_arith)
            requires (base_ppn + pages) * 4096 <= u64::MAX, n == pages * 4096;
        PhysMemory { base_ppn, bytes }
    }

    pub fn read_byte(&self, pa: PhysAddr) -> (r: Option<u8>)
        requires
            self.wf(),
        ensures
            r == (if self.holds(pa.0 as int) { Some(self.byte_at(pa.0 as int)) } else { None::<u8> }),
    {
        let base = self.base_ppn * 4096;
        if pa.0 < base || pa.0 - base >= self.bytes.len() as u64 {
            None
        } else {
            Some(self.bytes[(pa.0 - base) as usize])
        }
    }

    /// Stores `b` at `pa`; `false`, with nothing changed, when `pa` is not
    /// held.
    pub fn write_byte(&mut self, pa: PhysAddr, b: u8) -> (r: bool)
        requires
            old(self).wf(),
        ensures
            final(self).wf(),
            final(self).base() == old(self).base(),
            r == old(self).holds(pa.0 as int),
            r ==> final(self)@ == old(self)@.update(pa.0 - old(self).base(), b),
            !r ==> final(self)@ == old(self)@,
    {
        let base = self.base_ppn * 4096;
        if pa.0 < base || pa.0 - base >= self.bytes.len() as u64 {
            false
        } else {
            self.bytes.set((pa.0 - base) as usize, b);
            true
        }
    }
}

/// The physical address that virtual address `va` maps to under `m`.
pub open spec fn phys_of(m: Map<u64, PageTableEntry>, va: int) -> Option<int> {
    if 0 <= va && m.contains_key(floor_of(va as u64) as u64) && va <= u64::MAX {
        Some(m[floor_of(va as u64) as u64].ppn_spec() * 4096 + va % 4096)
    } else {
        None
    }
}

/// The byte that a user space sees at `va`, if its page is mapped to memory
/// that `mem` holds.
pub open spec fn user_byte(m: Map<u64, PageTableEntry>, mem: PhysMemory, va: int) -> Option<u8> {
    match phys_of(m, va) {
        Some(pa) => if mem.holds(pa) { Some(mem.byte_at(pa)) } else { None },
        None => None,
    }
}

/// A byte was read and it is not the terminator.
pub open spec fn is_char(o: Option<u8>) -> bool {
    match o {
        Some(b) => b != 0,
        None => false,
    }
}

/// Reads the NUL-terminated string at `va` through `pt`, byte by byte across
/// page boundaries, without the terminator. `None` when a byte before the
/// terminator cannot be read.
pub fn translated_str(pt: &PageTable, mem: &PhysMemory, va: VirtAddr) -> (r: Option<Vec<u8>>)
    requires
        pt.wf(),
        mem.wf(),
    ensures
        match r {
            Some(s) => {
                &&& forall|i: int| 0 <= i < s@.len() ==> user_byte(pt@, *mem, va.0 + i) == Some(#[trigger] s@[i]) && s@[i] != 0
                &&& user_byte(pt@, *mem, va.0 + s@.len()) == Some(0u8)
            },
            None => exists|k: int| {
                &&& 0 <= k
                &&& (forall|i: int| 0 <= i < k ==> is_char(#[trigger] user_byte(pt@, *mem, va.0 + i)))
                &&& #[trigger] user_byte(pt@, *mem, va.0 + k) is None
            },
        },
{
    let mut out: Vec<u8> = Vec::new();
    let mut cur: u64 = va.0;
    loop
        invariant
            pt.wf(),
            mem.wf(),
            va.0 <= cur,
            cur - va.0 == out@.len(),
            forall|i: int| 0 <= i < out@.len() ==> user_byte(pt@, *mem, va.0 + i) == Some(#[trigger] out@[i]) && out@[i] != 0,
        decreases u64::MAX - cur,
    {
        let b = match pt.translate_va(VirtAddr(cur)) {
            Some(pa) => mem.read_byte(pa),
            None => None,
        };
        match b {
            None => {
                proof {
                    assert(user_byte(pt@, *mem, va.0 + out@.len()) is None);
                    assert forall|i: int| 0 <= i < out@.len() implies is_char(#[trigger] user_byte(pt@, *mem, va.0 + i)) by {
                        assert(user_byte(pt@, *mem, va.0 + i) == Some(out@[i]));
                    };
                }
                return None;
            },
            Some(0u8) => {
                return Some(out);
            },
            Some(c) => {
                proof {
                    let p = phys_of(pt@, cur as int);
                    assert(p is Some);
                    pt.lemma_mapped_in_range(floor_of(cur) as u64);
                    assert(cur < u64::MAX) by (nonlinear_arith)
                        requires cur as int / 4096 < 0x800_0000;
                }
                out.push(c);
                cur = cur + 1;
            },
        }
    }
}

/// Total length of a list of (physical start, length) chunks.
pub open spec fn chunks_len(c: Seq<(u64, u64)>) -> int
    decreases c.len(),
{
    if c.len() == 0 {
        0
    } else {
        chunks_len(c.drop_last()) + c.last().1
    }
}

/// Chunk `k` of `c` is the piece of `[va, ...)` that starts after the
/// earlier chunks: it is not empty, stays in one page, ends at a page
/// boundary unless it is the last, and starts at the physical address that
/// its first byte maps to under `m`.
pub open spec fn chunk_ok(m: Map<u64, PageTableEntry>, va: int, c: Seq<(u64, u64)>, k: int) -> bool {
    let s = va + chunks_len(c.take(k));
    &&& c[k].1 > 0
    &&& s % 4096 + c[k].1 <= 4096
    &&& (k + 1 < c.len() ==> (s + c[k].1) % 4096 == 0)
    &&& phys_of(m, s) == Some(c[k].0 as int)
}

/// The physical pieces of the user buffer `[va, va + len)`, in order, split
/// at page boundaries. `None` when a page of the buffer is not mapped.
pub fn translated_byte_buffer(pt: &PageTable, va: VirtAddr, len: u64) -> (r: Option<Vec<(u64, u64)>>)
    requires
        va.0 + len <= u64::MAX,
    ensures
        match r {
            Some(c) => {
                &&& chunks_len(c@) == len
                &&& forall|k: int| 0 <= k < c@.len() ==> #[trigger] chunk_ok(pt@, va.0 as int, c@, k)
            },
            None => exists|j: int| 0 <= j < len && #[trigger] phys_of(pt@, va.0 + j) is None,
        },
{
    let end = va.0 + len;
    let mut cur = va.0;
    let mut out: Vec<(u64, u64)> = Vec::new();
    while cur < end
        invariant
            va.0 <= cur <= end,
            end == va.0 + len,
            cur == va.0 + chunks_len(out@),
            out@.len() > 0 ==> (cur % 4096 == 0 || cur == end),
            forall|k: int| 0 <= k < out@.len() ==> #[trigger] chunk_ok(pt@, va.0 as int, out@, k),
        decreases end - cur,
    {
        let room = 4096 - cur % 4096;
        let stop = if end - cur > room { cur + room } else { end };
        let pa = match pt.translate_va(VirtAddr(cur)) {
            Some(pa) => pa,
            None => {
                assert(phys_of(pt@, va.0 + (cur - va.0)) is None);
                return None;
            },
        };
        let ghost before = out@;
        out.push((pa.0, stop - cur));
        proof {
            assert(out@.drop_last() =~= before);
            assert(before =~= out@.take(before.len() as int));
            assert forall|k: int| 0 <= k < out@.len() implies #[trigger] chunk_ok(pt@, va.0 as int, out@, k) by {
                if k < before.len() {
                    assert(out@.take(k) =~= before.take(k));
                    assert(out@[k] == before[k]);
                    assert(chunk_ok(pt@, va.0 as int, before, k));
                    if k + 1 == before.len() {
                        assert(before.take(k + 1) =~= before);
                    }
                } else {
                    assert(cur % 4096 + (stop - cur) <= 4096);
                }
            };
            if stop != end {
                assert((cur + room) % 4096 == 0) by (nonlinear_arith)
                    requires room == 4096 - cur % 4096;
            }
        }
        cur = stop;
    }
    Some(out)
}

/// Reads the `len` bytes of the user buffer at `va` as one stream, across
/// page boundaries. `None` when one of them cannot be read.
pub fn read_user_bytes(pt: &PageTable, mem: &PhysMemory, va: VirtAddr, len: u64) -> (r: Option<Vec<u8>>)
    requires
        mem.wf(),
        va.0 + len <= u64::MAX,
    ensures
        match r {
            Some(b) => b@.len() == len && forall|j: int| 0 <= j < len ==> user_byte(pt@, *mem, va.0 + j) == Some(#[trigger] b@[j]),
            None => exists|j: int| 0 <= j < len && #[trigger] user_byte(pt@, *mem, va.0 + j) is None,
        },
{
    let mut out: Vec<u8> = Vec::new();
    let mut j: u64 = 0;
    while j < len
        invariant
            mem.wf(),
            va.0 + len <= u64::MAX,
            j <= len,
            out@.len() == j,
            forall|k: int| 0 <= k < j ==> user_byte(pt@, *mem, va.0 + k) == Some(#[trigger] out@[k]),
        decreases len - j,
    {
        let b = match pt.translate_va(VirtAddr(va.0 + j)) {
            Some(pa) => mem.read_byte(pa),
            None => None,
        };
        match b {
            Some(c) => {
                out.push(c);
                j = j + 1;
            },
            None => {
                assert(user_byte(pt@, *mem, va.0 + j) is None);
                return None;
            },
        }
    }
    Some(out)
}

/// The little-endian value of eight bytes.
pub open spec fn le_u64(b: Seq<u8>) -> int {
    b[0] + 0x100 * (b[1] + 0x100 * (b[2] + 0x100 * (b[3] + 0x100 * (b[4] + 0x100 * (b[5] + 0x100 * (b[6]
        + 0x100 * b[7] as int) as int) as int) as int) as int) as int) as int
}

/// Reads the little-endian `u64` at `va` byte by byte, so that it may
/// straddle a page boundary. `None` when one of its bytes cannot be read.
pub fn translated_u64(pt: &PageTable, mem: &PhysMemory, va: VirtAddr) -> (r: Option<u64>)
    requires
        mem.wf(),
        va.0 + 8 <= u64::MAX,
    ensures
        match r {
            Some(x) => exists|b: Seq<u8>| {
                &&& b.len() == 8
                &&& (forall|j: int| 0 <= j < 8 ==> user_byte(pt@, *mem, va.0 + j) == Some(#[trigger] b[j]))
                &&& x == le_u64(b)
            },
            None => exists|j: int| 0 <= j < 8 && #[trigger] user_byte(pt@, *mem, va.0 + j) is None,
        },
{
    match read_user_bytes(pt, mem, va, 8) {
        None => None,
        Some(b) => {
            let x: u64 = b[0] as u64 + 0x100 * (b[1] as u64 + 0x100 * (b[2] as u64 + 0x100 * (b[3] as u64
                + 0x100 * (b[4] as u64 + 0x100 * (b[5] as u64 + 0x100 * (b[6] as u64 + 0x100 * b[7] as u64))))));
            assert(x == le_u64(b@));
            Some(x)
        },
    }
}

/// The bytes of `mem` after storing the first `n` bytes of `data` at the
/// physical addresses that `va`, `va + 1`, ... map to under `m`, in order.
pub open spec fn after_writes(m: Map<u64, PageTableEntry>, mem: PhysMemory, va: int, data: Seq<u8>, n: int) -> Seq<u8>
    decreases n,
{
    if n <= 0 {
        mem@
    } else {
        after_writes(m, mem, va, data, n - 1).update(phys_of(m, va + n - 1)->0 - mem.base(), data[n - 1])
    }
}

/// Stores `data` into the user buffer at `va`, byte by byte across page
/// boundaries. Changes nothing and returns `false` when one of the bytes
/// cannot be reached.
pub fn write_user_bytes(pt: &PageTable, mem: &mut PhysMemory, va: VirtAddr, data: &Vec<u8>) -> (r: bool)
    requires
        old(mem).wf(),
        va.0 + data@.len() <= u64::MAX,
    ensures
        final(mem).wf(),
        final(mem).base() == old(mem).base(),
        r == forall|j: int| 0 <= j < data@.len() ==> #[trigger] user_byte(pt@, *old(mem), va.0 + j) is Some,
        r ==> final(mem)@ == after_writes(pt@, *old(mem), va.0 as int, data@, data@.len() as int),
        !r ==> final(mem)@ == old(mem)@,
{
    let n = data.len() as u64;
    let mut j: u64 = 0;
    while j < n
        invariant
            mem.wf(),
            n == data@.len(),
            va.0 + n <= u64::MAX,
            j <= n,
            forall|k: int| 0 <= k < j ==> #[trigger] user_byte(pt@, *mem, va.0 + k) is Some,
        decreases n - j,
    {
        let ok = match pt.translate_va(VirtAddr(va.0 + j)) {
            Some(pa) => mem.read_byte(pa).is_some(),
            None => false,
        };
        if !ok {
            assert(user_byte(pt@, *mem, va.0 + j) is None);
            return false;
        }
        j = j + 1;
    }
    let ghost m0 = *mem;
    let mut j: usize = 0;
    while j < data.len()
        invariant
            mem.wf(),
            mem.base() == m0.base(),
            mem@.len() == m0@.len(),
            n == data@.len(),
            va.0 + n <= u64::MAX,
            j <= data@.len(),
            forall|k: int| 0 <= k < n ==> #[trigger] user_byte(pt@, m0, va.0 + k) is Some,
            mem@ == after_writes(pt@, m0, va.0 as int, data@, j as int),
        decreases data.len() - j,
    {
        let pa = pt.translate_va(VirtAddr(va.0 + j as u64)).unwrap();
        proof {
            assert(user_byte(pt@, m0, va.0 + j) is Some);
            assert(phys_of(pt@, va.0 + j) == Some(pa.0 as int));
        }
        let ghost prev = mem@;
        let wrote = mem.write_byte(pa, data[j]);
        assert(wrote);
        assert(after_writes(pt@, m0, va.0 as int, data@, j as int + 1) == prev.update(pa.0 - m0.base(), data@[j as int]));
        j = j + 1;
    }
    true
}

} // verus!
