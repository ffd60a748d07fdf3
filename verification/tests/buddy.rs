use cheesecake_kernel::mm::buddy::{init, BuddyAllocator};
use cheesecake_kernel::mm::free_lists::{MAX_ORDER, PAGE_SIZE};
use cheesecake_kernel::mm::{usable_ram_mb, MemoryRegion, MemoryRegionKind};

fn total_pages(b: &BuddyAllocator) -> usize {
    (0..MAX_ORDER).map(|o| b.free_pages(o) << o).sum()
}

#[test]
fn new_allocator_is_empty() {
    let mut b = BuddyAllocator::new();
    assert_eq!(total_pages(&b), 0);
    assert_eq!(b.alloc_block(0), None);
    assert!(b.stats().is_empty());
}

#[test]
fn add_region_splits_into_largest_aligned_blocks() {
    let mut b = BuddyAllocator::new();
    // 0x1000..0x8000 is pages 1..8: blocks 1 (order 0), 2-3 (order 1), 4-7 (order 2).
    b.add_region(0x1000, 0x8000);
    assert_eq!(b.free_pages(0), 1);
    assert_eq!(b.free_pages(1), 1);
    assert_eq!(b.free_pages(2), 1);
    assert_eq!(total_pages(&b), 7);
    assert_eq!(b.stats(), vec![(0, 1, 4), (1, 1, 8), (2, 1, 16)]);
}

#[test]
fn add_region_rounds_to_whole_pages() {
    let mut b = BuddyAllocator::new();
    b.add_region(0x1001, 0x3fff);
    // start rounds up to 0x2000, end down to 0x3000: one page.
    assert_eq!(total_pages(&b), 1);
    assert_eq!(b.alloc_block(0), Some(0x2000));
}

#[test]
fn add_region_empty_when_less_than_a_page() {
    let mut b = BuddyAllocator::new();
    b.add_region(0x5000, 0x5fff);
    b.add_region(0x9000, 0x4000);
    assert_eq!(total_pages(&b), 0);
}

#[test]
fn large_region_uses_top_order() {
    let mut b = BuddyAllocator::new();
    let block = PAGE_SIZE << (MAX_ORDER - 1);
    b.add_region(0, 3 * block);
    assert_eq!(b.free_pages(MAX_ORDER - 1), 3);
    assert_eq!(total_pages(&b), 3 << (MAX_ORDER - 1));
}

#[test]
fn alloc_takes_head_of_list() {
    let mut b = BuddyAllocator::new();
    b.add_region(0x4000, 0x8000);
    assert_eq!(b.alloc_block(2), Some(0x4000));
    assert_eq!(b.alloc_block(2), None);
    assert_eq!(total_pages(&b), 0);
}

#[test]
fn alloc_splits_larger_block() {
    let mut b = BuddyAllocator::new();
    b.add_region(0x8000, 0x10000); // pages 8..16: one order-3 block
    assert_eq!(b.free_pages(3), 1);
    assert_eq!(b.alloc_block(0), Some(0x8000));
    // The split leaves buddies at orders 0, 1 and 2.
    assert_eq!(b.free_pages(0), 1);
    assert_eq!(b.free_pages(1), 1);
    assert_eq!(b.free_pages(2), 1);
    assert_eq!(b.free_pages(3), 0);
    assert_eq!(b.alloc_block(0), Some(0x9000));
    assert_eq!(b.alloc_block(1), Some(0xa000));
    assert_eq!(b.alloc_block(2), Some(0xc000));
    assert_eq!(b.alloc_block(0), None);
}

#[test]
fn alloc_rejects_too_large_order() {
    let mut b = BuddyAllocator::new();
    b.add_region(0, PAGE_SIZE << (MAX_ORDER - 1));
    assert_eq!(b.alloc_block(MAX_ORDER), None);
    assert_eq!(b.alloc_block(MAX_ORDER + 5), None);
    assert_eq!(b.free_pages(MAX_ORDER - 1), 1);
}

#[test]
fn free_merges_buddies_back() {
    let mut b = BuddyAllocator::new();
    b.add_region(0x8000, 0x10000);
    let a = b.alloc_block(0).unwrap();
    let c = b.alloc_block(0).unwrap();
    assert_eq!((a, c), (0x8000, 0x9000));
    b.free(a, 0);
    assert_eq!(b.free_pages(0), 1);
    b.free(c, 0);
    // Both pages merge all the way back into the order-3 block.
    assert_eq!(b.free_pages(0), 0);
    assert_eq!(b.free_pages(1), 0);
    assert_eq!(b.free_pages(2), 0);
    assert_eq!(b.free_pages(3), 1);
    assert_eq!(total_pages(&b), 8);
}

#[test]
fn free_without_free_buddy_just_pushes() {
    let mut b = BuddyAllocator::new();
    b.add_region(0x0, 0x4000); // order-2 block at 0
    let a = b.alloc_block(1).unwrap();
    assert_eq!(a, 0);
    let rest = b.alloc_block(1).unwrap();
    assert_eq!(rest, 0x2000);
    b.free(a, 1);
    assert_eq!(b.free_pages(1), 1);
    assert_eq!(b.free_pages(2), 0);
    b.free(rest, 1);
    assert_eq!(b.free_pages(1), 0);
    assert_eq!(b.free_pages(2), 1);
}

#[test]
fn free_at_top_order_does_not_merge() {
    let mut b = BuddyAllocator::new();
    let block = PAGE_SIZE << (MAX_ORDER - 1);
    b.add_region(0, 2 * block);
    let x = b.alloc_block(MAX_ORDER - 1).unwrap();
    let y = b.alloc_block(MAX_ORDER - 1).unwrap();
    b.free(x, MAX_ORDER - 1);
    b.free(y, MAX_ORDER - 1);
    assert_eq!(b.free_pages(MAX_ORDER - 1), 2);
}

#[test]
fn alloc_then_free_restores_page_count() {
    let mut b = BuddyAllocator::new();
    b.add_region(0x3000, 0x2f000);
    let before = total_pages(&b);
    let a = b.alloc_block(3).unwrap();
    assert_eq!(a % (PAGE_SIZE << 3), 0);
    assert_eq!(total_pages(&b), before - 8);
    b.free(a, 3);
    assert_eq!(total_pages(&b), before);
}

#[test]
fn init_adds_only_usable_regions() {
    let mut b = BuddyAllocator::new();
    let map = [
        MemoryRegion { start: 0x0, end: 0x1000, kind: MemoryRegionKind::Bootloader },
        MemoryRegion { start: 0x1000, end: 0x5000, kind: MemoryRegionKind::Usable },
        MemoryRegion { start: 0x5000, end: 0x9000, kind: MemoryRegionKind::UnknownBios(2) },
        MemoryRegion { start: 0x10000, end: 0x20000, kind: MemoryRegionKind::Usable },
    ];
    init(&mut b, &map);
    assert_eq!(total_pages(&b), 4 + 16);
}

#[test]
fn usable_ram_counts_mebibytes() {
    let map = [
        MemoryRegion { start: 0, end: 3 << 20, kind: MemoryRegionKind::Usable },
        MemoryRegion { start: 3 << 20, end: 8 << 20, kind: MemoryRegionKind::Bootloader },
        MemoryRegion { start: 8 << 20, end: (10 << 20) + 5, kind: MemoryRegionKind::Usable },
    ];
    assert_eq!(usable_ram_mb(&map), 5);
    assert_eq!(usable_ram_mb(&[]), 0);
}

#[test]
fn alloc_then_free_restores_lists() {
    let mut b = BuddyAllocator::new();
    // Pages 4..8 (order 2) and 8..16 (order 3): no two free buddies.
    b.add_region(0x4000, 0x10000);
    let before: Vec<usize> = (0..MAX_ORDER).map(|o| b.free_pages(o)).collect();
    let a = b.alloc_block(0).unwrap();
    assert_eq!(a, 0x4000);
    b.free(a, 0);
    let after: Vec<usize> = (0..MAX_ORDER).map(|o| b.free_pages(o)).collect();
    assert_eq!(after, before);
    assert_eq!(b.alloc_block(0), Some(a));
}

#[test]
fn init_adds_regions_as_largest_blocks() {
    let mut b = BuddyAllocator::new();
    let map = [
        MemoryRegion { start: 0x2000, end: 0x4000, kind: MemoryRegionKind::Usable },
        MemoryRegion { start: 0x8000, end: 0x9000, kind: MemoryRegionKind::Usable },
    ];
    init(&mut b, &map);
    // Pages 2..4 form one order-1 block, page 8 one order-0 block.
    assert_eq!(b.free_pages(1), 1);
    assert_eq!(b.free_pages(0), 1);
    assert_eq!(b.alloc_block(1), Some(0x2000));
}
