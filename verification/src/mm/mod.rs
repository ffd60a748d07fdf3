//! Physical memory: the boot memory map and the page-frame allocator.
pub mod buddy;
pub mod free_lists;

use vstd::prelude::*;

verus! {

/// The kind of a region of the boot memory map.
#[derive(Clone, Copy, PartialEq, Eq, Structural, Debug)]
pub enum MemoryRegionKind {
    /// Conventional memory the kernel may use.
    Usable,
    /// Memory the bootloader set up (page tables, boot info).
    Bootloader,
    /// A region the UEFI firmware reported, with its memory type tag.
    UnknownUefi(u32),
    /// A region the BIOS reported, with its E820 memory type.
    UnknownBios(u32),
}

/// A region `[start, end)` of physical memory, as the boot memory map
/// describes it.
#[derive(Clone, Copy, Debug)]
pub struct MemoryRegion {
    pub start: u64,
    pub end: u64,
    pub kind: MemoryRegionKind,
}

/// The region is usable memory.
pub open spec fn is_usable(r: MemoryRegion) -> bool {
    r.kind is Usable
}

/// Bytes of usable memory in the first `n` regions of the map.
pub open spec fn usable_bytes(map: Seq<MemoryRegion>, n: int) -> int
    decreases n,
{
    if n <= 0 || n > map.len() {
        0
    } else if is_usable(map[n - 1]) {
        usable_bytes(map, n - 1) + (map[n - 1].end - map[n - 1].start)
    } else {
        usable_bytes(map, n - 1)
    }
}

/// The memory map can be summed as `usable_ram_mb` does: no usable region
/// ends before it starts, and no partial sum of usable sizes exceeds
/// `u64::MAX`.
pub open spec fn usable_sum_fits(map: Seq<MemoryRegion>) -> bool {
    &&& forall|i: int| 0 <= i < map.len() && is_usable(#[trigger] map[i]) ==> map[i].start <= map[i].end
    &&& forall|n: int| 0 <= n <= map.len() ==> #[trigger] usable_bytes(map, n) <= u64::MAX
}

/// Usable memory in whole mebibytes (rounded down).
pub fn usable_ram_mb(memory_map: &[MemoryRegion]) -> (r: u64)
    requires
        usable_sum_fits(memory_map@),
    ensures
        r == usable_bytes(memory_map@, memory_map@.len() as int) / 1024 / 1024,
{
    let mut sum: u64 = 0;
    let mut i: usize = 0;
    while i < memory_map.len()
        invariant
            i <= memory_map@.len(),
            usable_sum_fits(memory_map@),
            sum == usable_bytes(memory_map@, i as int),
        decreases memory_map@.len() - i,
    {
        let r = memory_map[i];
        if r.kind == MemoryRegionKind::Usable {
            assert(usable_bytes(memory_map@, i + 1) <= u64::MAX);
            sum = sum + (r.end - r.start);
        }
        i = i + 1;
    }
    sum / 1024 / 1024
}

} // verus!
